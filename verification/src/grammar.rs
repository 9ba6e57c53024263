//! The grammar of templates, stated without the parser: which trees a
//! template can say, and the tokens that say a tree. The parser is held to
//! it from both sides: it reads every such tree back from its tokens, and
//! whatever it accepts are the tokens of the tree it builds.

use vstd::prelude::*;
use crate::parser::{
    is_mark, kind_at, parse_arms, parse_attrs, parse_block, parse_branches, parse_entry_list,
    parse_node, parse_nodes, parse_pi_attrs, parse_texts, parse_value, parsed, starts_node,
    text_at, ParseError,
};
use crate::token::{Class, KindModel, Mark, TokenModel};
use crate::tree::{
    ArmModel, AttrValueModel, AttributeModel, BranchModel, GuardedModel, NodeModel,
};

verus! {

/// Whether the tokens from `i` on are of the kinds `kinds`, in order.
pub open spec fn window(tokens: Seq<TokenModel>, i: int, kinds: Seq<KindModel>) -> bool {
    0 <= i && i + kinds.len() <= tokens.len() && forall|k: int|
        0 <= k < kinds.len() ==> (#[trigger] tokens[i + k]).kind == kinds[k]
}

proof fn lemma_window_split(tokens: Seq<TokenModel>, i: int, a: Seq<KindModel>, b: Seq<KindModel>)
    requires
        window(tokens, i, a + b),
    ensures
        window(tokens, i, a),
        window(tokens, i + a.len(), b),
{
    assert forall|k: int| 0 <= k < a.len() implies (#[trigger] tokens[i + k]).kind == a[k] by {
        assert((a + b)[k] == a[k]);
    }
    assert forall|k: int| 0 <= k < b.len() implies (#[trigger] tokens[i + a.len() + k]).kind
        == b[k] by {
        assert((a + b)[a.len() + k] == b[k]);
        assert(tokens[i + (a.len() + k)].kind == (a + b)[a.len() + k]);
    }
}

proof fn lemma_window_first(tokens: Seq<TokenModel>, i: int, kinds: Seq<KindModel>, k: int)
    requires
        window(tokens, i, kinds),
        0 <= k < kinds.len(),
    ensures
        kind_at(tokens, i + k) == Some(kinds[k]),
{
    assert(tokens[i + k].kind == kinds[k]);
}

/// The tokens of the entries of a conditional list from `from` on, with the
/// `]` that ends the list: a comma stands between two entries.
pub open spec fn entries_kinds(entries: Seq<GuardedModel>, from: int) -> Seq<KindModel>
    decreases entries.len() - from,
{
    if from < 0 || from >= entries.len() {
        seq![KindModel::Mark(Mark::RBracket)]
    } else {
        let head = seq![
            KindModel::Text(Class::Literal, entries[from].literal),
            KindModel::Text(Class::Guard, entries[from].condition),
        ];
        if from + 1 == entries.len() {
            head + seq![KindModel::Mark(Mark::RBracket)]
        } else {
            head + seq![KindModel::Mark(Mark::Comma)] + entries_kinds(entries, from + 1)
        }
    }
}

/// The tokens of the value of an attribute.
pub open spec fn value_kinds(value: AttrValueModel) -> Seq<KindModel> {
    match value {
        AttrValueModel::Static(t) => seq![KindModel::Text(Class::Literal, t)],
        AttrValueModel::Slot { expr, spec } => seq![KindModel::Slot { expr, spec }],
        AttrValueModel::ConditionalList(entries) => seq![KindModel::Mark(Mark::LBracket)]
            + entries_kinds(entries, 0),
    }
}

/// The tokens of the attributes from `from` on: `name`, `=` and the value
/// of each.
pub open spec fn attrs_kinds(attrs: Seq<AttributeModel>, from: int) -> Seq<KindModel>
    decreases attrs.len() - from,
{
    if from < 0 || from >= attrs.len() {
        Seq::empty()
    } else {
        seq![KindModel::Text(Class::Name, attrs[from].name), KindModel::Mark(Mark::Eq)]
            + value_kinds(attrs[from].value) + attrs_kinds(attrs, from + 1)
    }
}

proof fn lemma_entries(tokens: Seq<TokenModel>, i: int, entries: Seq<GuardedModel>, from: int)
    requires
        0 <= from < entries.len(),
        window(tokens, i, entries_kinds(entries, from)),
    ensures
        parse_entry_list(tokens, i) == Ok::<(Seq<GuardedModel>, int), ParseError>(
            (entries.skip(from), i + entries_kinds(entries, from).len()),
        ),
    decreases entries.len() - from,
{
    let kinds = entries_kinds(entries, from);
    {
        let head = seq![
            KindModel::Text(Class::Literal, entries[from].literal),
            KindModel::Text(Class::Guard, entries[from].condition),
        ];
        let entry = entries[from];
        if from + 1 == entries.len() {
            lemma_window_first(tokens, i, kinds, 0);
            lemma_window_first(tokens, i, kinds, 1);
            lemma_window_first(tokens, i, kinds, 2);
            assert(entries.skip(from) == seq![entry]);
        } else {
            let rest = entries_kinds(entries, from + 1);
            lemma_window_split(tokens, i, head + seq![KindModel::Mark(Mark::Comma)], rest);
            lemma_window_first(tokens, i, head + seq![KindModel::Mark(Mark::Comma)], 0);
            lemma_window_first(tokens, i, head + seq![KindModel::Mark(Mark::Comma)], 1);
            lemma_window_first(tokens, i, head + seq![KindModel::Mark(Mark::Comma)], 2);
            lemma_entries(tokens, i + 3, entries, from + 1);
            assert(entries.skip(from) == seq![entry] + entries.skip(from + 1));
        }
    }
}

proof fn lemma_value(tokens: Seq<TokenModel>, i: int, value: AttrValueModel)
    requires
        window(tokens, i, value_kinds(value)),
    ensures
        parse_value(tokens, i) == Ok::<(AttrValueModel, int), ParseError>(
            (value, i + value_kinds(value).len()),
        ),
        value_kinds(value).len() > 0,
{
    let kinds = value_kinds(value);
    match value {
        AttrValueModel::ConditionalList(entries) => {
            lemma_window_split(
                tokens,
                i,
                seq![KindModel::Mark(Mark::LBracket)],
                entries_kinds(entries, 0),
            );
            lemma_window_first(tokens, i, seq![KindModel::Mark(Mark::LBracket)], 0);
            lemma_window_first(tokens, i + 1, entries_kinds(entries, 0), 0);
            if entries.len() > 0 {
                assert(entries_kinds(entries, 0)[0] == KindModel::Text(
                    Class::Literal,
                    entries[0].literal,
                ));
                lemma_entries(tokens, i + 1, entries, 0);
                assert(entries.skip(0) == entries);
            } else {
                assert(entries == Seq::<GuardedModel>::empty());
            }
        },
        _ => {
            lemma_window_first(tokens, i, kinds, 0);
        },
    }
}

proof fn lemma_attrs(tokens: Seq<TokenModel>, i: int, attrs: Seq<AttributeModel>, from: int)
    requires
        0 <= from <= attrs.len(),
        window(tokens, i, attrs_kinds(attrs, from)),
        text_at(tokens, i + attrs_kinds(attrs, from).len(), Class::Name) is None,
    ensures
        parse_attrs(tokens, i) == Ok::<(Seq<AttributeModel>, int), ParseError>(
            (attrs.skip(from), i + attrs_kinds(attrs, from).len()),
        ),
    decreases attrs.len() - from,
{
    if from >= attrs.len() {
        assert(attrs.skip(from) == Seq::<AttributeModel>::empty());
    } else {
        let head = seq![KindModel::Text(Class::Name, attrs[from].name), KindModel::Mark(Mark::Eq)];
        let value = value_kinds(attrs[from].value);
        let rest = attrs_kinds(attrs, from + 1);
        lemma_window_split(tokens, i, head + value, rest);
        lemma_window_split(tokens, i, head, value);
        lemma_window_first(tokens, i, head, 0);
        lemma_window_first(tokens, i, head, 1);
        lemma_value(tokens, i + 2, attrs[from].value);
        lemma_attrs(tokens, i + 2 + value.len(), attrs, from + 1);
        assert(attrs.skip(from) == seq![attrs[from]] + attrs.skip(from + 1));
    }
}

/// Whether a node is a literal or a slot.
pub open spec fn is_text(node: NodeModel) -> bool {
    node is Literal || node is Slot
}

pub open spec fn all_text(nodes: Seq<NodeModel>) -> bool {
    forall|i: int| 0 <= i < nodes.len() ==> is_text(#[trigger] nodes[i])
}

/// The token of a text node.
pub open spec fn text_kind(node: NodeModel) -> KindModel {
    match node {
        NodeModel::Slot { expr, spec } => KindModel::Slot { expr, spec },
        NodeModel::Literal(t) => KindModel::Text(Class::Literal, t),
        _ => KindModel::Unknown(' '),
    }
}

/// The tokens of the text nodes from `from` on.
pub open spec fn texts_kinds(nodes: Seq<NodeModel>, from: int) -> Seq<KindModel>
    decreases nodes.len() - from,
{
    if from < 0 || from >= nodes.len() {
        Seq::empty()
    } else {
        seq![text_kind(nodes[from])] + texts_kinds(nodes, from + 1)
    }
}

/// The name of the attribute that the literal `open` opens: what stands
/// in it between the space and `="`.
pub open spec fn opened(open: NodeModel) -> Seq<char> {
    open->Literal_0.subrange(" "@.len() as int, open->Literal_0.len() - "=\""@.len())
}

/// Whether the nodes from `from` on are attributes as they are written,
/// three nodes each: a space, the name and `="`; the value, a literal or a
/// slot; and `"`.
pub open spec fn written_attrs(nodes: Seq<NodeModel>, from: int) -> bool
    decreases nodes.len() - from,
{
    if from < 0 || from >= nodes.len() {
        true
    } else {
        from + 3 <= nodes.len() && nodes[from] == NodeModel::Literal(
            " "@ + opened(nodes[from]) + "=\""@,
        ) && is_text(nodes[from + 1]) && nodes[from + 2] == NodeModel::Literal("\""@)
            && written_attrs(nodes, from + 3)
    }
}

/// The tokens of the attributes of a processing instruction from `from`
/// on: `name`, `=` and the value of each.
pub open spec fn written_kinds(nodes: Seq<NodeModel>, from: int) -> Seq<KindModel>
    decreases nodes.len() - from,
{
    if from < 0 || from + 3 > nodes.len() {
        Seq::empty()
    } else {
        seq![
            KindModel::Text(Class::Name, opened(nodes[from])),
            KindModel::Mark(Mark::Eq),
            text_kind(nodes[from + 1]),
        ] + written_kinds(nodes, from + 3)
    }
}

/// Whether a tree is one that a template can say: a self-closing tag has no
/// children and no closing name, a wrapper holds literals and slots only,
/// a processing instruction holds its name and then its attributes as they
/// are written, a conditional has a branch, and so for every node below.
pub open spec fn sayable(node: NodeModel) -> bool
    decreases node,
{
    match node {
        NodeModel::Element { self_closing, children, close_name, .. } => (self_closing ==> children.len()
            == 0 && close_name.len() == 0) && forall|i: int|
            0 <= i < children.len() ==> sayable(#[trigger] children[i]),
        NodeModel::Doctype(t) => all_text(t),
        NodeModel::ProcessingInstruction(t) => t.len() > 0 && t[0] is Literal && written_attrs(
            t,
            1,
        ),
        NodeModel::Comment(t) => all_text(t),
        NodeModel::CData(t) => all_text(t),
        NodeModel::If { branches, else_body } => branches.len() > 0 && (forall|i: int, j: int|
            0 <= i < branches.len() && 0 <= j < branches[i].body.len() ==> sayable(
                #[trigger] branches[i].body[j],
            )) && match else_body {
            Some(body) => forall|j: int| 0 <= j < body.len() ==> sayable(#[trigger] body[j]),
            None => true,
        },
        NodeModel::Match { arms, .. } => forall|i: int, j: int|
            0 <= i < arms.len() && 0 <= j < arms[i].body.len() ==> sayable(
                #[trigger] arms[i].body[j],
            ),
        NodeModel::For { body, .. } => forall|j: int|
            0 <= j < body.len() ==> sayable(#[trigger] body[j]),
        _ => true,
    }
}

pub open spec fn all_sayable(nodes: Seq<NodeModel>) -> bool {
    forall|i: int| 0 <= i < nodes.len() ==> sayable(#[trigger] nodes[i])
}

/// The tokens of the nodes from `from` on, one node after the other.
pub open spec fn nodes_kinds(nodes: Seq<NodeModel>, from: int) -> Seq<KindModel>
    decreases nodes, 0nat, nodes.len() - from,
{
    if from < 0 || from >= nodes.len() {
        Seq::empty()
    } else {
        node_kinds(nodes[from]) + nodes_kinds(nodes, from + 1)
    }
}

/// The tokens of a body between `{` and `}`.
pub open spec fn block_kinds(body: Seq<NodeModel>) -> Seq<KindModel>
    decreases body, 1nat, 0nat,
{
    seq![KindModel::Mark(Mark::LBrace)] + nodes_kinds(body, 0) + seq![
        KindModel::Mark(Mark::RBrace),
    ]
}

/// The tokens of a node.
pub open spec fn node_kinds(node: NodeModel) -> Seq<KindModel>
    decreases node, 1nat, 0nat,
{
    match node {
        NodeModel::Literal(_) => seq![text_kind(node)],
        NodeModel::Slot { .. } => seq![text_kind(node)],
        NodeModel::Element { name, attributes, self_closing, children, close_name } => seq![
            KindModel::Mark(Mark::Lt),
            KindModel::Text(Class::Name, name),
        ] + attrs_kinds(attributes, 0) + if self_closing {
            seq![KindModel::Mark(Mark::SlashGt)]
        } else {
            seq![KindModel::Mark(Mark::Gt)] + nodes_kinds(children, 0) + seq![
                KindModel::Text(Class::Close, close_name),
            ]
        },
        NodeModel::Doctype(t) => seq![KindModel::Mark(Mark::DoctypeOpen)] + texts_kinds(t, 0)
            + seq![KindModel::Mark(Mark::Gt)],
        NodeModel::ProcessingInstruction(t) => seq![
            KindModel::Mark(Mark::PiOpen),
            KindModel::Text(Class::Name, t[0]->Literal_0),
        ] + written_kinds(t, 1) + seq![KindModel::Mark(Mark::PiClose)],
        NodeModel::Comment(t) => seq![KindModel::Mark(Mark::CommentOpen)] + texts_kinds(t, 0)
            + seq![KindModel::Mark(Mark::CommentClose)],
        NodeModel::CData(t) => seq![KindModel::Mark(Mark::CDataOpen)] + texts_kinds(t, 0) + seq![
            KindModel::Mark(Mark::CDataClose),
        ],
        NodeModel::If { .. } => branches_kinds(node, 0),
        NodeModel::Match { scrutinee, arms } => seq![
            KindModel::Mark(Mark::Match),
            KindModel::Text(Class::Paren, scrutinee),
            KindModel::Mark(Mark::LBrace),
        ] + arms_kinds(node, 0),
        NodeModel::For { pattern, iterable, body } => seq![
            KindModel::Mark(Mark::For),
            KindModel::Text(Class::Pattern, pattern),
            KindModel::Mark(Mark::In),
            KindModel::Text(Class::Paren, iterable),
        ] + block_kinds(body),
        NodeModel::LetBinding { pattern, value } => seq![
            KindModel::Mark(Mark::Let),
            KindModel::Text(Class::Pattern, pattern),
            KindModel::Mark(Mark::Eq),
            KindModel::Text(Class::Expr, value),
            KindModel::Mark(Mark::Semi),
        ],
    }
}

/// The tokens of the branches of a conditional from `from` on, and of its
/// else body: `else` stands before every branch but the first.
pub open spec fn branches_kinds(node: NodeModel, from: int) -> Seq<KindModel>
    decreases node, 0nat, node->branches.len() - from,
{
    match node {
        NodeModel::If { branches, else_body } => if from < 0 || from >= branches.len() {
            Seq::empty()
        } else {
            seq![
                KindModel::Mark(Mark::If),
                KindModel::Text(Class::Paren, branches[from].condition),
            ] + block_kinds(branches[from].body) + if from + 1 < branches.len() {
                seq![KindModel::Mark(Mark::Else)] + branches_kinds(node, from + 1)
            } else {
                match else_body {
                    Some(body) => seq![KindModel::Mark(Mark::Else)] + block_kinds(body),
                    None => Seq::empty(),
                }
            }
        },
        _ => Seq::empty(),
    }
}

/// The tokens of the arms of a match from `from` on, with the `}` that
/// ends them.
pub open spec fn arms_kinds(node: NodeModel, from: int) -> Seq<KindModel>
    decreases node, 0nat, node->arms.len() - from,
{
    match node {
        NodeModel::Match { arms, .. } => if from < 0 || from >= arms.len() {
            seq![KindModel::Mark(Mark::RBrace)]
        } else {
            seq![
                KindModel::Text(Class::Pattern, arms[from].pattern),
                KindModel::Mark(Mark::Arrow),
            ] + block_kinds(arms[from].body) + arms_kinds(node, from + 1)
        },
        _ => Seq::empty(),
    }
}

proof fn lemma_texts(tokens: Seq<TokenModel>, i: int, nodes: Seq<NodeModel>, from: int)
    requires
        0 <= from <= nodes.len(),
        all_text(nodes),
        window(tokens, i, texts_kinds(nodes, from)),
        kind_at(tokens, i + texts_kinds(nodes, from).len()) is Some ==> kind_at(
            tokens,
            i + texts_kinds(nodes, from).len(),
        )->0 is Mark,
    ensures
        parse_texts(tokens, i) == (nodes.skip(from), i + texts_kinds(nodes, from).len()),
    decreases nodes.len() - from,
{
    if from >= nodes.len() {
        assert(nodes.skip(from) == Seq::<NodeModel>::empty());
    } else {
        let head = seq![text_kind(nodes[from])];
        let rest = texts_kinds(nodes, from + 1);
        lemma_window_split(tokens, i, head, rest);
        lemma_window_first(tokens, i, head, 0);
        assert(is_text(nodes[from]));
        lemma_texts(tokens, i + 1, nodes, from + 1);
        assert(nodes.skip(from) == seq![nodes[from]] + nodes.skip(from + 1));
    }
}

proof fn lemma_written(tokens: Seq<TokenModel>, i: int, nodes: Seq<NodeModel>, from: int)
    requires
        0 <= from <= nodes.len(),
        written_attrs(nodes, from),
        window(tokens, i, written_kinds(nodes, from)),
        text_at(tokens, i + written_kinds(nodes, from).len(), Class::Name) is None,
    ensures
        parse_pi_attrs(tokens, i) == Ok::<(Seq<NodeModel>, int), ParseError>(
            (nodes.skip(from), i + written_kinds(nodes, from).len()),
        ),
    decreases nodes.len() - from,
{
    if from >= nodes.len() {
        assert(nodes.skip(from) == Seq::<NodeModel>::empty());
    } else {
        let head = seq![
            KindModel::Text(Class::Name, opened(nodes[from])),
            KindModel::Mark(Mark::Eq),
            text_kind(nodes[from + 1]),
        ];
        lemma_window_split(tokens, i, head, written_kinds(nodes, from + 3));
        lemma_window_first(tokens, i, head, 0);
        lemma_window_first(tokens, i, head, 1);
        lemma_window_first(tokens, i, head, 2);
        lemma_written(tokens, i + 3, nodes, from + 3);
        assert(nodes.skip(from) == seq![nodes[from], nodes[from + 1], nodes[from + 2]]
            + nodes.skip(from + 3));
    }
}

/// Whether a token of this kind begins a node.
pub open spec fn begins(kind: KindModel) -> bool {
    match kind {
        KindModel::Text(Class::Literal, _) => true,
        KindModel::Slot { .. } => true,
        KindModel::Mark(m) => m == Mark::Lt || m == Mark::DoctypeOpen || m == Mark::PiOpen || m
            == Mark::CommentOpen || m == Mark::CDataOpen || m == Mark::If || m == Mark::Match || m
            == Mark::For || m == Mark::Let,
        _ => false,
    }
}

proof fn lemma_begins(node: NodeModel)
    requires
        sayable(node),
    ensures
        node_kinds(node).len() > 0,
        begins(node_kinds(node)[0]),
{
    match node {
        NodeModel::If { branches, else_body } => {
            assert(branches_kinds(node, 0)[0] == KindModel::Mark(Mark::If));
        },
        _ => {},
    }
}

proof fn lemma_nodes(tokens: Seq<TokenModel>, i: int, nodes: Seq<NodeModel>, from: int)
    requires
        0 <= from <= nodes.len(),
        all_sayable(nodes),
        window(tokens, i, nodes_kinds(nodes, from)),
        !starts_node(tokens, i + nodes_kinds(nodes, from).len()),
        !is_mark(tokens, i + nodes_kinds(nodes, from).len(), Mark::Else),
    ensures
        parse_nodes(tokens, i) == Ok::<(Seq<NodeModel>, int), ParseError>(
            (nodes.skip(from), i + nodes_kinds(nodes, from).len()),
        ),
    decreases nodes, 0nat, nodes.len() - from,
{
    if from >= nodes.len() {
        assert(nodes.skip(from) == Seq::<NodeModel>::empty());
    } else {
        let one = node_kinds(nodes[from]);
        let rest = nodes_kinds(nodes, from + 1);
        lemma_window_split(tokens, i, one, rest);
        assert(sayable(nodes[from]));
        if from + 1 < nodes.len() {
            assert(sayable(nodes[from + 1]));
            lemma_begins(nodes[from + 1]);
            let next = node_kinds(nodes[from + 1]);
            lemma_window_split(tokens, i + one.len(), next, nodes_kinds(nodes, from + 2));
            lemma_window_first(tokens, i + one.len(), next, 0);
        }
        lemma_node(tokens, i, nodes[from]);
        lemma_nodes(tokens, i + one.len(), nodes, from + 1);
        assert(nodes.skip(from) == seq![nodes[from]] + nodes.skip(from + 1));
    }
}

proof fn lemma_block(tokens: Seq<TokenModel>, i: int, body: Seq<NodeModel>)
    requires
        all_sayable(body),
        window(tokens, i, block_kinds(body)),
    ensures
        parse_block(tokens, i) == Ok::<(Seq<NodeModel>, int), ParseError>(
            (body, i + block_kinds(body).len()),
        ),
        block_kinds(body).len() >= 2,
    decreases body, 1nat, 0nat,
{
    let open = seq![KindModel::Mark(Mark::LBrace)];
    let inner = nodes_kinds(body, 0);
    let close = seq![KindModel::Mark(Mark::RBrace)];
    lemma_window_split(tokens, i, open + inner, close);
    lemma_window_split(tokens, i, open, inner);
    lemma_window_first(tokens, i, open, 0);
    lemma_window_first(tokens, i + 1 + inner.len(), close, 0);
    lemma_nodes(tokens, i + 1, body, 0);
    assert(body.skip(0) == body);
}

proof fn lemma_node(tokens: Seq<TokenModel>, i: int, node: NodeModel)
    requires
        sayable(node),
        window(tokens, i, node_kinds(node)),
        !is_mark(tokens, i + node_kinds(node).len(), Mark::Else),
    ensures
        parse_node(tokens, i) == Ok::<(NodeModel, int), ParseError>(
            (node, i + node_kinds(node).len()),
        ),
        node_kinds(node).len() > 0,
        starts_node(tokens, i),
    decreases node, 1nat, 0nat,
{
    let kinds = node_kinds(node);
    lemma_begins(node);
    lemma_window_first(tokens, i, kinds, 0);
    match node {
        NodeModel::Literal(_) => {},
        NodeModel::Slot { .. } => {},
        NodeModel::Element { name, attributes, self_closing, children, close_name } => {
            let a = seq![KindModel::Mark(Mark::Lt), KindModel::Text(Class::Name, name)];
            let b = attrs_kinds(attributes, 0);
            let j = i + 2 + b.len();
            if self_closing {
                let tail = seq![KindModel::Mark(Mark::SlashGt)];
                lemma_window_split(tokens, i, a + b, tail);
                lemma_window_split(tokens, i, a, b);
                lemma_window_first(tokens, i, a, 1);
                lemma_window_first(tokens, j, tail, 0);
                lemma_attrs(tokens, i + 2, attributes, 0);
                assert(attributes.skip(0) == attributes);
                assert(children == Seq::<NodeModel>::empty());
                assert(close_name == Seq::<char>::empty());
            } else {
                let c = seq![KindModel::Mark(Mark::Gt)];
                let d = nodes_kinds(children, 0);
                let e = seq![KindModel::Text(Class::Close, close_name)];
                lemma_window_split(tokens, i, a + b, c + d + e);
                lemma_window_split(tokens, i, a, b);
                lemma_window_first(tokens, i, a, 1);
                lemma_window_split(tokens, j, c + d, e);
                lemma_window_split(tokens, j, c, d);
                lemma_window_first(tokens, j, c, 0);
                lemma_window_first(tokens, j + 1 + d.len(), e, 0);
                lemma_attrs(tokens, i + 2, attributes, 0);
                assert(attributes.skip(0) == attributes);
                assert(all_sayable(children));
                lemma_nodes(tokens, j + 1, children, 0);
                assert(children.skip(0) == children);
            }
        },
        NodeModel::Doctype(t) => {
            let a = seq![KindModel::Mark(Mark::DoctypeOpen)];
            let b = texts_kinds(t, 0);
            let c = seq![KindModel::Mark(Mark::Gt)];
            lemma_window_split(tokens, i, a + b, c);
            lemma_window_split(tokens, i, a, b);
            lemma_window_first(tokens, i + 1 + b.len(), c, 0);
            lemma_texts(tokens, i + 1, t, 0);
            assert(t.skip(0) == t);
        },
        NodeModel::ProcessingInstruction(t) => {
            let a = seq![
                KindModel::Mark(Mark::PiOpen),
                KindModel::Text(Class::Name, t[0]->Literal_0),
            ];
            let b = written_kinds(t, 1);
            let c = seq![KindModel::Mark(Mark::PiClose)];
            lemma_window_split(tokens, i, a + b, c);
            lemma_window_split(tokens, i, a, b);
            lemma_window_first(tokens, i, a, 1);
            lemma_window_first(tokens, i + 2 + b.len(), c, 0);
            lemma_written(tokens, i + 2, t, 1);
            assert(seq![NodeModel::Literal(t[0]->Literal_0)] + t.skip(1) == t);
        },
        NodeModel::Comment(t) => {
            let a = seq![KindModel::Mark(Mark::CommentOpen)];
            let b = texts_kinds(t, 0);
            let c = seq![KindModel::Mark(Mark::CommentClose)];
            lemma_window_split(tokens, i, a + b, c);
            lemma_window_split(tokens, i, a, b);
            lemma_window_first(tokens, i + 1 + b.len(), c, 0);
            lemma_texts(tokens, i + 1, t, 0);
            assert(t.skip(0) == t);
        },
        NodeModel::CData(t) => {
            let a = seq![KindModel::Mark(Mark::CDataOpen)];
            let b = texts_kinds(t, 0);
            let c = seq![KindModel::Mark(Mark::CDataClose)];
            lemma_window_split(tokens, i, a + b, c);
            lemma_window_split(tokens, i, a, b);
            lemma_window_first(tokens, i + 1 + b.len(), c, 0);
            lemma_texts(tokens, i + 1, t, 0);
            assert(t.skip(0) == t);
        },
        NodeModel::If { branches, else_body } => {
            lemma_branches(tokens, i, node, 0);
            assert(branches.skip(0) == branches);
        },
        NodeModel::Match { scrutinee, arms } => {
            let a = seq![
                KindModel::Mark(Mark::Match),
                KindModel::Text(Class::Paren, scrutinee),
                KindModel::Mark(Mark::LBrace),
            ];
            lemma_window_split(tokens, i, a, arms_kinds(node, 0));
            lemma_window_first(tokens, i, a, 1);
            lemma_window_first(tokens, i, a, 2);
            lemma_arms(tokens, i + 3, node, 0);
            assert(arms.skip(0) == arms);
        },
        NodeModel::For { pattern, iterable, body } => {
            let a = seq![
                KindModel::Mark(Mark::For),
                KindModel::Text(Class::Pattern, pattern),
                KindModel::Mark(Mark::In),
                KindModel::Text(Class::Paren, iterable),
            ];
            lemma_window_split(tokens, i, a, block_kinds(body));
            lemma_window_first(tokens, i, a, 1);
            lemma_window_first(tokens, i, a, 2);
            lemma_window_first(tokens, i, a, 3);
            assert(all_sayable(body));
            lemma_block(tokens, i + 4, body);
        },
        NodeModel::LetBinding { pattern, value } => {
            lemma_window_first(tokens, i, kinds, 1);
            lemma_window_first(tokens, i, kinds, 2);
            lemma_window_first(tokens, i, kinds, 3);
            lemma_window_first(tokens, i, kinds, 4);
        },
    }
}

proof fn lemma_branches(tokens: Seq<TokenModel>, i: int, node: NodeModel, from: int)
    requires
        node is If,
        sayable(node),
        0 <= from < node->branches.len(),
        window(tokens, i, branches_kinds(node, from)),
        !is_mark(tokens, i + branches_kinds(node, from).len(), Mark::Else),
    ensures
        parse_branches(tokens, i) == Ok::<
            ((Seq<BranchModel>, Option<Seq<NodeModel>>), int),
            ParseError,
        >(
            (
                (node->branches.skip(from), node->else_body),
                i + branches_kinds(node, from).len(),
            ),
        ),
    decreases node, 0nat, node->branches.len() - from,
{
    let branches = node->branches;
    let else_body = node->else_body;
    let branch = branches[from];
    let a = seq![KindModel::Mark(Mark::If), KindModel::Text(Class::Paren, branch.condition)];
    let b = block_kinds(branch.body);
    let k = i + 2 + b.len();
    assert(all_sayable(branch.body)) by {
        assert forall|j: int| 0 <= j < branch.body.len() implies sayable(
            #[trigger] branch.body[j],
        ) by {
            assert(sayable(branches[from].body[j]));
        }
    }
    if from + 1 < branches.len() {
        let c = seq![KindModel::Mark(Mark::Else)];
        let d = branches_kinds(node, from + 1);
        lemma_window_split(tokens, i, a + b, c + d);
        lemma_window_split(tokens, i, a, b);
        lemma_window_first(tokens, i, a, 1);
        lemma_window_split(tokens, k, c, d);
        lemma_window_first(tokens, k, c, 0);
        lemma_block(tokens, i + 2, branch.body);
        assert(d[0] == KindModel::Mark(Mark::If));
        lemma_window_first(tokens, k + 1, d, 0);
        lemma_branches(tokens, k + 1, node, from + 1);
        assert(branches.skip(from) == seq![branch] + branches.skip(from + 1));
    } else {
        assert(branches.skip(from) == seq![branch]);
        match else_body {
            Some(body) => {
                let c = seq![KindModel::Mark(Mark::Else)];
                let d = block_kinds(body);
                lemma_window_split(tokens, i, a + b, c + d);
                lemma_window_split(tokens, i, a, b);
                lemma_window_first(tokens, i, a, 1);
                lemma_window_split(tokens, k, c, d);
                lemma_window_first(tokens, k, c, 0);
                lemma_block(tokens, i + 2, branch.body);
                assert(all_sayable(body));
                lemma_window_first(tokens, k + 1, d, 0);
                lemma_block(tokens, k + 1, body);
            },
            None => {
                assert(a + b + Seq::<KindModel>::empty() == a + b);
                lemma_window_split(tokens, i, a, b);
                lemma_window_first(tokens, i, a, 1);
                lemma_block(tokens, i + 2, branch.body);
            },
        }
    }
}

proof fn lemma_arms(tokens: Seq<TokenModel>, i: int, node: NodeModel, from: int)
    requires
        node is Match,
        sayable(node),
        0 <= from <= node->arms.len(),
        window(tokens, i, arms_kinds(node, from)),
    ensures
        parse_arms(tokens, i) == Ok::<(Seq<ArmModel>, int), ParseError>(
            (node->arms.skip(from), i + arms_kinds(node, from).len()),
        ),
    decreases node, 0nat, node->arms.len() - from,
{
    let arms = node->arms;
    if from >= arms.len() {
        lemma_window_first(tokens, i, arms_kinds(node, from), 0);
        assert(arms.skip(from) == Seq::<ArmModel>::empty());
    } else {
        let arm = arms[from];
        let a = seq![KindModel::Text(Class::Pattern, arm.pattern), KindModel::Mark(Mark::Arrow)];
        let b = block_kinds(arm.body);
        let c = arms_kinds(node, from + 1);
        assert(all_sayable(arm.body)) by {
            assert forall|j: int| 0 <= j < arm.body.len() implies sayable(
                #[trigger] arm.body[j],
            ) by {
                assert(sayable(arms[from].body[j]));
            }
        }
        lemma_window_split(tokens, i, a + b, c);
        lemma_window_split(tokens, i, a, b);
        lemma_window_first(tokens, i, a, 0);
        lemma_window_first(tokens, i, a, 1);
        lemma_block(tokens, i + 2, arm.body);
        lemma_arms(tokens, i + 2 + b.len(), node, from + 1);
        assert(arms.skip(from) == seq![arm] + arms.skip(from + 1));
    }
}

/// Whether the tokens are of the kinds `kinds`, one for one.
pub open spec fn spells(tokens: Seq<TokenModel>, kinds: Seq<KindModel>) -> bool {
    tokens.len() == kinds.len() && window(tokens, 0, kinds)
}

/// The parser reads a tree back from its token form: wherever the tokens
/// stand in the source, tokens that spell a sayable tree parse to that
/// tree, and to no other.
pub proof fn law_parser_reads_back(tokens: Seq<TokenModel>, nodes: Seq<NodeModel>)
    requires
        all_sayable(nodes),
        spells(tokens, nodes_kinds(nodes, 0)),
    ensures
        parsed(tokens) == Ok::<Seq<NodeModel>, ParseError>(nodes),
{
    lemma_nodes(tokens, 0, nodes, 0);
    assert(nodes.skip(0) == nodes);
}

proof fn lemma_texts_are_text(tokens: Seq<TokenModel>, i: int)
    ensures
        all_text(parse_texts(tokens, i).0),
    decreases tokens.len() - i,
{
    if 0 <= i < tokens.len() {
        lemma_texts_are_text(tokens, i + 1);
    }
}

proof fn lemma_pi_attrs_written(tokens: Seq<TokenModel>, i: int, before: Seq<NodeModel>)
    ensures
        parse_pi_attrs(tokens, i) is Ok ==> written_attrs(
            before + parse_pi_attrs(tokens, i)->Ok_0.0,
            before.len() as int,
        ),
    decreases tokens.len() - i,
{
    if parse_pi_attrs(tokens, i) is Ok {
        match text_at(tokens, i, Class::Name) {
            Some(name) => {
                assert(kind_at(tokens, i + 2) is Some);
                let open = NodeModel::Literal(" "@ + name + "=\""@);
                let close = NodeModel::Literal("\""@);
                let value = match kind_at(tokens, i + 2) {
                    Some(KindModel::Slot { expr, spec }) => NodeModel::Slot { expr, spec },
                    Some(KindModel::Text(_, t)) => NodeModel::Literal(t),
                    _ => close,
                };
                let triple = seq![open, value, close];
                let rest = parse_pi_attrs(tokens, i + 3)->Ok_0.0;
                lemma_pi_attrs_written(tokens, i + 3, before + triple);
                assert((before + triple) + rest == before + (triple + rest));
                assert(opened(open) == name) by {
                    assert((" "@ + name + "=\""@).subrange(
                        " "@.len() as int,
                        (" "@ + name + "=\""@).len() - "=\""@.len(),
                    ) == name);
                }
                let all = before + (triple + rest);
                assert(all[before.len() as int] == open);
                assert(all[before.len() as int + 1] == value);
                assert(all[before.len() as int + 2] == close);
            },
            None => {
                assert(before + Seq::<NodeModel>::empty() == before);
            },
        }
    }
}

proof fn lemma_nodes_sayable(tokens: Seq<TokenModel>, i: int)
    ensures
        parse_nodes(tokens, i) is Ok ==> all_sayable(parse_nodes(tokens, i)->Ok_0.0),
    decreases tokens.len() - i, 3nat,
{
    if starts_node(tokens, i) {
        lemma_node_sayable(tokens, i);
        match parse_node(tokens, i) {
            Ok((node, j)) => {
                if i < j <= tokens.len() {
                    lemma_nodes_sayable(tokens, j);
                }
            },
            Err(_) => {},
        }
    }
}

proof fn lemma_block_sayable(tokens: Seq<TokenModel>, i: int)
    ensures
        parse_block(tokens, i) is Ok ==> all_sayable(parse_block(tokens, i)->Ok_0.0),
    decreases tokens.len() - i, 0nat,
{
    if is_mark(tokens, i, Mark::LBrace) {
        lemma_nodes_sayable(tokens, i + 1);
    }
}

proof fn lemma_branches_sayable(tokens: Seq<TokenModel>, i: int)
    ensures
        parse_branches(tokens, i) is Ok ==> (forall|a: int, j: int|
            0 <= a < parse_branches(tokens, i)->Ok_0.0.0.len() && 0 <= j < parse_branches(
                tokens,
                i,
            )->Ok_0.0.0[a].body.len() ==> sayable(
                #[trigger] parse_branches(tokens, i)->Ok_0.0.0[a].body[j],
            )) && (parse_branches(tokens, i)->Ok_0.0.1 is Some ==> all_sayable(
            parse_branches(tokens, i)->Ok_0.0.1->0,
        )),
    decreases tokens.len() - i, 1nat,
{
    if text_at(tokens, i + 1, Class::Paren) is Some {
        lemma_block_sayable(tokens, i + 2);
        match parse_block(tokens, i + 2) {
            Ok((body, k)) => {
                let branch = BranchModel {
                    condition: text_at(tokens, i + 1, Class::Paren)->0,
                    body,
                };
                if !is_mark(tokens, k, Mark::Else) || k <= i {
                    assert(seq![branch][0] == branch);
                } else if is_mark(tokens, k + 1, Mark::If) {
                    lemma_branches_sayable(tokens, k + 1);
                    match parse_branches(tokens, k + 1) {
                        Ok(((rest, else_body), _)) => {
                            let all = seq![branch] + rest;
                            assert forall|a: int, j: int|
                                0 <= a < all.len() && 0 <= j < all[a].body.len() implies sayable(
                                #[trigger] all[a].body[j],
                            ) by {
                                if a > 0 {
                                    assert(all[a] == rest[a - 1]);
                                    assert(sayable(rest[a - 1].body[j]));
                                } else {
                                    assert(all[a] == branch);
                                    assert(sayable(body[j]));
                                }
                            }
                        },
                        Err(_) => {},
                    }
                } else {
                    lemma_block_sayable(tokens, k + 1);
                    assert(seq![branch][0] == branch);
                }
            },
            Err(_) => {},
        }
    }
}

proof fn lemma_arms_sayable(tokens: Seq<TokenModel>, i: int)
    ensures
        parse_arms(tokens, i) is Ok ==> forall|a: int, j: int|
            0 <= a < parse_arms(tokens, i)->Ok_0.0.len() && 0 <= j < parse_arms(
                tokens,
                i,
            )->Ok_0.0[a].body.len() ==> sayable(
                #[trigger] parse_arms(tokens, i)->Ok_0.0[a].body[j],
            ),
    decreases tokens.len() - i, 1nat,
{
    if !is_mark(tokens, i, Mark::RBrace) && text_at(
        tokens,
        i,
        Class::Pattern,
    ) is Some && is_mark(tokens, i + 1, Mark::Arrow) {
        lemma_block_sayable(tokens, i + 2);
        match parse_block(tokens, i + 2) {
            Ok((body, k)) => {
                if i < k <= tokens.len() {
                    lemma_arms_sayable(tokens, k);
                }
            },
            Err(_) => {},
        }
    }
}

proof fn lemma_node_sayable(tokens: Seq<TokenModel>, i: int)
    ensures
        parse_node(tokens, i) is Ok ==> sayable(parse_node(tokens, i)->Ok_0.0),
    decreases tokens.len() - i, 2nat,
{
    if parse_node(tokens, i) is Ok {
        match kind_at(tokens, i) {
            Some(KindModel::Mark(Mark::Lt)) => {
                match parse_attrs(tokens, i + 2) {
                    Ok((attributes, j)) => {
                        if !is_mark(tokens, j, Mark::SlashGt) {
                            lemma_nodes_sayable(tokens, j + 1);
                        }
                    },
                    Err(_) => {},
                }
            },
            Some(KindModel::Mark(Mark::DoctypeOpen)) => {
                lemma_texts_are_text(tokens, i + 1);
            },
            Some(KindModel::Mark(Mark::PiOpen)) => {
                let name = NodeModel::Literal(text_at(tokens, i + 1, Class::Name)->0);
                lemma_pi_attrs_written(tokens, i + 2, seq![name]);
            },
            Some(KindModel::Mark(Mark::CommentOpen)) => {
                lemma_texts_are_text(tokens, i + 1);
            },
            Some(KindModel::Mark(Mark::CDataOpen)) => {
                lemma_texts_are_text(tokens, i + 1);
            },
            Some(KindModel::Mark(Mark::If)) => {
                lemma_branches_sayable(tokens, i);
            },
            Some(KindModel::Mark(Mark::Match)) => {
                lemma_arms_sayable(tokens, i + 3);
            },
            Some(KindModel::Mark(Mark::For)) => {
                lemma_block_sayable(tokens, i + 4);
            },
            _ => {},
        }
    }
}

/// Every tree that the parser builds is one that a template can say: in
/// it a self-closing tag has no children, a wrapper holds nothing but
/// literals and slots, and a conditional has a branch.
pub proof fn law_parsed_sayable(tokens: Seq<TokenModel>)
    ensures
        parsed(tokens) is Ok ==> all_sayable(parsed(tokens)->Ok_0),
{
    lemma_nodes_sayable(tokens, 0);
}


proof fn lemma_window_join(tokens: Seq<TokenModel>, i: int, a: Seq<KindModel>, b: Seq<KindModel>)
    requires
        window(tokens, i, a),
        window(tokens, i + a.len(), b),
    ensures
        window(tokens, i, a + b),
{
    assert forall|k: int| 0 <= k < (a + b).len() implies (#[trigger] tokens[i + k]).kind == (a
        + b)[k] by {
        if k >= a.len() {
            assert(tokens[i + a.len() + (k - a.len())].kind == b[k - a.len()]);
        }
    }
}

proof fn lemma_window_one(tokens: Seq<TokenModel>, i: int, kind: KindModel)
    requires
        kind_at(tokens, i) == Some(kind),
    ensures
        window(tokens, i, seq![kind]),
{
}

proof fn lemma_window_none(tokens: Seq<TokenModel>, i: int)
    requires
        0 <= i <= tokens.len(),
    ensures
        window(tokens, i, Seq::empty()),
{
}

proof fn lemma_entries_shift(e: GuardedModel, rest: Seq<GuardedModel>, k: int)
    requires
        0 <= k < rest.len(),
    ensures
        entries_kinds(seq![e] + rest, k + 1) == entries_kinds(rest, k),
    decreases rest.len() - k,
{
    let all = seq![e] + rest;
    assert(all[k + 1] == rest[k]);
    if k + 1 < rest.len() {
        lemma_entries_shift(e, rest, k + 1);
    }
}

proof fn lemma_entry_list_spelled(tokens: Seq<TokenModel>, i: int)
    requires
        0 <= i,
    ensures
        parse_entry_list(tokens, i) is Ok ==> ({
            let (entries, j) = parse_entry_list(tokens, i)->Ok_0;
            entries.len() > 0 && window(tokens, i, entries_kinds(entries, 0)) && j == i
                + entries_kinds(entries, 0).len()
        }),
    decreases tokens.len() - i,
{
    if parse_entry_list(tokens, i) is Ok {
        let literal = text_at(tokens, i, Class::Literal)->0;
        let condition = text_at(tokens, i + 1, Class::Guard)->0;
        let entry = GuardedModel { literal, condition };
        let head = seq![
            KindModel::Text(Class::Literal, literal),
            KindModel::Text(Class::Guard, condition),
        ];
        lemma_window_one(tokens, i, head[0]);
        lemma_window_one(tokens, i + 1, head[1]);
        lemma_window_join(tokens, i, seq![head[0]], seq![head[1]]);
        assert(seq![head[0]] + seq![head[1]] == head);
        if is_mark(tokens, i + 2, Mark::RBracket) {
            lemma_window_one(tokens, i + 2, KindModel::Mark(Mark::RBracket));
            lemma_window_join(tokens, i, head, seq![KindModel::Mark(Mark::RBracket)]);
            assert(seq![entry][0] == entry);
        } else {
            lemma_entry_list_spelled(tokens, i + 3);
            let (rest, j) = parse_entry_list(tokens, i + 3)->Ok_0;
            let all = seq![entry] + rest;
            lemma_entries_shift(entry, rest, 0);
            lemma_window_one(tokens, i + 2, KindModel::Mark(Mark::Comma));
            lemma_window_join(tokens, i, head, seq![KindModel::Mark(Mark::Comma)]);
            lemma_window_join(
                tokens,
                i,
                head + seq![KindModel::Mark(Mark::Comma)],
                entries_kinds(rest, 0),
            );
            assert(all[0] == entry);
        }
    }
}

proof fn lemma_value_spelled(tokens: Seq<TokenModel>, i: int)
    requires
        0 <= i,
    ensures
        parse_value(tokens, i) is Ok ==> ({
            let (value, j) = parse_value(tokens, i)->Ok_0;
            window(tokens, i, value_kinds(value)) && j == i + value_kinds(value).len() && j > i
        }),
{
    if parse_value(tokens, i) is Ok {
        match kind_at(tokens, i) {
            Some(KindModel::Mark(Mark::LBracket)) => {
                let open = seq![KindModel::Mark(Mark::LBracket)];
                lemma_window_one(tokens, i, open[0]);
                if is_mark(tokens, i + 1, Mark::RBracket) {
                    lemma_window_one(tokens, i + 1, KindModel::Mark(Mark::RBracket));
                    lemma_window_join(tokens, i, open, seq![KindModel::Mark(Mark::RBracket)]);
                } else {
                    lemma_entry_list_spelled(tokens, i + 1);
                    let (entries, j) = parse_entry_list(tokens, i + 1)->Ok_0;
                    lemma_window_join(tokens, i, open, entries_kinds(entries, 0));
                }
            },
            Some(kind) => {
                lemma_window_one(tokens, i, kind);
            },
            None => {},
        }
    }
}

proof fn lemma_attrs_shift(a: AttributeModel, rest: Seq<AttributeModel>, k: int)
    requires
        0 <= k,
    ensures
        attrs_kinds(seq![a] + rest, k + 1) == attrs_kinds(rest, k),
    decreases rest.len() - k,
{
    let all = seq![a] + rest;
    if k < rest.len() {
        assert(all[k + 1] == rest[k]);
        lemma_attrs_shift(a, rest, k + 1);
    }
}

proof fn lemma_attrs_spelled(tokens: Seq<TokenModel>, i: int)
    requires
        0 <= i <= tokens.len(),
    ensures
        parse_attrs(tokens, i) is Ok ==> ({
            let (attrs, j) = parse_attrs(tokens, i)->Ok_0;
            window(tokens, i, attrs_kinds(attrs, 0)) && j == i + attrs_kinds(attrs, 0).len()
                && text_at(tokens, j, Class::Name) is None
        }),
    decreases tokens.len() - i,
{
    if parse_attrs(tokens, i) is Ok {
        match text_at(tokens, i, Class::Name) {
            None => {
                lemma_window_none(tokens, i);
            },
            Some(name) => {
                lemma_value_spelled(tokens, i + 2);
                let (value, j) = parse_value(tokens, i + 2)->Ok_0;
                let one = AttributeModel { name, value };
                let head = seq![KindModel::Text(Class::Name, name), KindModel::Mark(Mark::Eq)];
                lemma_window_one(tokens, i, head[0]);
                lemma_window_one(tokens, i + 1, head[1]);
                lemma_window_join(tokens, i, seq![head[0]], seq![head[1]]);
                assert(seq![head[0]] + seq![head[1]] == head);
                lemma_window_join(tokens, i, head, value_kinds(value));
                lemma_attrs_spelled(tokens, j);
                let (rest, k) = parse_attrs(tokens, j)->Ok_0;
                let all = seq![one] + rest;
                lemma_attrs_shift(one, rest, 0);
                lemma_window_join(tokens, i, head + value_kinds(value), attrs_kinds(rest, 0));
                assert(all[0] == one);
            },
        }
    }
}

proof fn lemma_texts_shift(n: NodeModel, rest: Seq<NodeModel>, k: int)
    requires
        0 <= k,
    ensures
        texts_kinds(seq![n] + rest, k + 1) == texts_kinds(rest, k),
    decreases rest.len() - k,
{
    let all = seq![n] + rest;
    if k < rest.len() {
        assert(all[k + 1] == rest[k]);
        lemma_texts_shift(n, rest, k + 1);
    }
}

proof fn lemma_texts_spelled(tokens: Seq<TokenModel>, i: int)
    requires
        0 <= i <= tokens.len(),
    ensures
        window(tokens, i, texts_kinds(parse_texts(tokens, i).0, 0)),
        parse_texts(tokens, i).1 == i + texts_kinds(parse_texts(tokens, i).0, 0).len(),
    decreases tokens.len() - i,
{
    let (nodes, j) = parse_texts(tokens, i);
    match kind_at(tokens, i) {
        Some(KindModel::Text(Class::Literal, t)) => {
            lemma_texts_spelled(tokens, i + 1);
            let (rest, _) = parse_texts(tokens, i + 1);
            let node = NodeModel::Literal(t);
            lemma_texts_shift(node, rest, 0);
            lemma_window_one(tokens, i, text_kind(node));
            lemma_window_join(tokens, i, seq![text_kind(node)], texts_kinds(rest, 0));
            assert((seq![node] + rest)[0] == node);
        },
        Some(KindModel::Slot { expr, spec }) => {
            lemma_texts_spelled(tokens, i + 1);
            let (rest, _) = parse_texts(tokens, i + 1);
            let node = NodeModel::Slot { expr, spec };
            lemma_texts_shift(node, rest, 0);
            lemma_window_one(tokens, i, text_kind(node));
            lemma_window_join(tokens, i, seq![text_kind(node)], texts_kinds(rest, 0));
            assert((seq![node] + rest)[0] == node);
        },
        _ => {
            lemma_window_none(tokens, i);
        },
    }
}

proof fn lemma_pi_attrs_spelled(tokens: Seq<TokenModel>, i: int, before: Seq<NodeModel>)
    requires
        0 <= i <= tokens.len(),
    ensures
        parse_pi_attrs(tokens, i) is Ok ==> ({
            let (nodes, j) = parse_pi_attrs(tokens, i)->Ok_0;
            let kinds = written_kinds(before + nodes, before.len() as int);
            window(tokens, i, kinds) && j == i + kinds.len() && text_at(tokens, j, Class::Name)
                is None
        }),
    decreases tokens.len() - i,
{
    if parse_pi_attrs(tokens, i) is Ok {
        match text_at(tokens, i, Class::Name) {
            Some(name) => {
                assert(kind_at(tokens, i + 2) is Some);
                let open = NodeModel::Literal(" "@ + name + "=\""@);
                let close = NodeModel::Literal("\""@);
                let value = match kind_at(tokens, i + 2) {
                    Some(KindModel::Slot { expr, spec }) => NodeModel::Slot { expr, spec },
                    Some(KindModel::Text(_, t)) => NodeModel::Literal(t),
                    _ => close,
                };
                let triple = seq![open, value, close];
                let (rest, j) = parse_pi_attrs(tokens, i + 3)->Ok_0;
                lemma_pi_attrs_spelled(tokens, i + 3, before + triple);
                assert((before + triple) + rest == before + (triple + rest));
                assert(opened(open) == name) by {
                    assert((" "@ + name + "=\""@).subrange(
                        " "@.len() as int,
                        (" "@ + name + "=\""@).len() - "=\""@.len(),
                    ) == name);
                }
                let all = before + (triple + rest);
                assert(all[before.len() as int] == open);
                assert(all[before.len() as int + 1] == value);
                let head = seq![
                    KindModel::Text(Class::Name, name),
                    KindModel::Mark(Mark::Eq),
                    text_kind(value),
                ];
                lemma_window_one(tokens, i, head[0]);
                lemma_window_one(tokens, i + 1, head[1]);
                lemma_window_one(tokens, i + 2, head[2]);
                lemma_window_join(tokens, i, seq![head[0]], seq![head[1]]);
                lemma_window_join(tokens, i, seq![head[0]] + seq![head[1]], seq![head[2]]);
                assert(seq![head[0]] + seq![head[1]] + seq![head[2]] == head);
                lemma_window_join(tokens, i, head, written_kinds(all, before.len() as int + 3));
            },
            None => {
                assert(before + Seq::<NodeModel>::empty() == before);
                lemma_window_none(tokens, i);
            },
        }
    }
}

proof fn lemma_window_two(tokens: Seq<TokenModel>, i: int, a: KindModel, b: KindModel)
    requires
        kind_at(tokens, i) == Some(a),
        kind_at(tokens, i + 1) == Some(b),
    ensures
        window(tokens, i, seq![a, b]),
{
    let kinds = seq![a, b];
    assert forall|k: int| 0 <= k < kinds.len() implies (#[trigger] tokens[i + k]).kind
        == kinds[k] by {
        if k == 0 {
        } else {
            assert(k == 1);
        }
    }
}

proof fn lemma_window_more(tokens: Seq<TokenModel>, i: int, kinds: Seq<KindModel>, last: KindModel)
    requires
        window(tokens, i, kinds),
        kind_at(tokens, i + kinds.len()) == Some(last),
    ensures
        window(tokens, i, kinds.push(last)),
{
    lemma_window_one(tokens, i + kinds.len(), last);
    lemma_window_join(tokens, i, kinds, seq![last]);
    assert(kinds + seq![last] == kinds.push(last));
}

proof fn lemma_nodes_shift(n: NodeModel, rest: Seq<NodeModel>, k: int)
    requires
        0 <= k,
    ensures
        nodes_kinds(seq![n] + rest, k + 1) == nodes_kinds(rest, k),
    decreases rest.len() - k,
{
    let all = seq![n] + rest;
    if k < rest.len() {
        assert(all[k + 1] == rest[k]);
        lemma_nodes_shift(n, rest, k + 1);
    }
}

proof fn lemma_branches_shift(
    b: BranchModel,
    rest: Seq<BranchModel>,
    else_body: Option<Seq<NodeModel>>,
    k: int,
)
    requires
        0 <= k < rest.len(),
    ensures
        branches_kinds(NodeModel::If { branches: seq![b] + rest, else_body }, k + 1)
            == branches_kinds(NodeModel::If { branches: rest, else_body }, k),
    decreases rest.len() - k,
{
    let all = seq![b] + rest;
    assert(all[k + 1] == rest[k]);
    if k + 1 < rest.len() {
        lemma_branches_shift(b, rest, else_body, k + 1);
    }
}

proof fn lemma_arms_shift(a: ArmModel, rest: Seq<ArmModel>, scrutinee: Seq<char>, k: int)
    requires
        0 <= k,
    ensures
        arms_kinds(NodeModel::Match { scrutinee, arms: seq![a] + rest }, k + 1) == arms_kinds(
            NodeModel::Match { scrutinee, arms: rest },
            k,
        ),
    decreases rest.len() - k,
{
    let all = seq![a] + rest;
    if k < rest.len() {
        assert(all[k + 1] == rest[k]);
        lemma_arms_shift(a, rest, scrutinee, k + 1);
    }
}

proof fn lemma_nodes_spelled(tokens: Seq<TokenModel>, i: int)
    requires
        0 <= i <= tokens.len(),
    ensures
        parse_nodes(tokens, i) is Ok ==> ({
            let (nodes, j) = parse_nodes(tokens, i)->Ok_0;
            window(tokens, i, nodes_kinds(nodes, 0)) && j == i + nodes_kinds(nodes, 0).len()
        }),
    decreases tokens.len() - i, 3nat,
{
    if parse_nodes(tokens, i) is Ok {
        if starts_node(tokens, i) {
            lemma_node_spelled(tokens, i);
            let (node, j) = parse_node(tokens, i)->Ok_0;
            lemma_nodes_spelled(tokens, j);
            let (rest, _) = parse_nodes(tokens, j)->Ok_0;
            lemma_nodes_shift(node, rest, 0);
            lemma_window_join(tokens, i, node_kinds(node), nodes_kinds(rest, 0));
            assert((seq![node] + rest)[0] == node);
        } else {
            lemma_window_none(tokens, i);
        }
    }
}

proof fn lemma_block_spelled(tokens: Seq<TokenModel>, i: int)
    requires
        0 <= i <= tokens.len(),
    ensures
        parse_block(tokens, i) is Ok ==> ({
            let (body, j) = parse_block(tokens, i)->Ok_0;
            window(tokens, i, block_kinds(body)) && j == i + block_kinds(body).len() && j >= i
                + 2
        }),
    decreases tokens.len() - i, 0nat,
{
    if parse_block(tokens, i) is Ok {
        lemma_nodes_spelled(tokens, i + 1);
        let (body, k) = parse_nodes(tokens, i + 1)->Ok_0;
        lemma_window_one(tokens, i, KindModel::Mark(Mark::LBrace));
        lemma_window_join(tokens, i, seq![KindModel::Mark(Mark::LBrace)], nodes_kinds(body, 0));
        lemma_window_one(tokens, k, KindModel::Mark(Mark::RBrace));
        lemma_window_join(
            tokens,
            i,
            seq![KindModel::Mark(Mark::LBrace)] + nodes_kinds(body, 0),
            seq![KindModel::Mark(Mark::RBrace)],
        );
    }
}

proof fn lemma_branches_spelled(tokens: Seq<TokenModel>, i: int)
    requires
        0 <= i < tokens.len(),
        is_mark(tokens, i, Mark::If),
    ensures
        parse_branches(tokens, i) is Ok ==> ({
            let ((branches, else_body), j) = parse_branches(tokens, i)->Ok_0;
            let kinds = branches_kinds(NodeModel::If { branches, else_body }, 0);
            branches.len() > 0 && window(tokens, i, kinds) && j == i + kinds.len()
        }),
    decreases tokens.len() - i, 1nat,
{
    if parse_branches(tokens, i) is Ok {
        let condition = text_at(tokens, i + 1, Class::Paren)->0;
        lemma_block_spelled(tokens, i + 2);
        let (body, k) = parse_block(tokens, i + 2)->Ok_0;
        let branch = BranchModel { condition, body };
        let a = seq![KindModel::Mark(Mark::If), KindModel::Text(Class::Paren, condition)];
        let b = block_kinds(body);
        lemma_window_two(tokens, i, a[0], a[1]);
        lemma_window_join(tokens, i, a, b);
        if !is_mark(tokens, k, Mark::Else) {
            assert(seq![branch][0] == branch);
            assert(a + b + Seq::<KindModel>::empty() == a + b);
        } else if is_mark(tokens, k + 1, Mark::If) {
            lemma_branches_spelled(tokens, k + 1);
            let ((rest, else_body), _) = parse_branches(tokens, k + 1)->Ok_0;
            let all = seq![branch] + rest;
            lemma_branches_shift(branch, rest, else_body, 0);
            let c = seq![KindModel::Mark(Mark::Else)];
            let d = branches_kinds(NodeModel::If { branches: rest, else_body }, 0);
            lemma_window_one(tokens, k, c[0]);
            lemma_window_join(tokens, k, c, d);
            lemma_window_join(tokens, i, a + b, c + d);
            assert(all[0] == branch);
        } else {
            lemma_block_spelled(tokens, k + 1);
            let (else_body, _) = parse_block(tokens, k + 1)->Ok_0;
            let c = seq![KindModel::Mark(Mark::Else)];
            let d = block_kinds(else_body);
            lemma_window_one(tokens, k, c[0]);
            lemma_window_join(tokens, k, c, d);
            lemma_window_join(tokens, i, a + b, c + d);
            assert(seq![branch][0] == branch);
        }
    }
}

proof fn lemma_arms_spelled(tokens: Seq<TokenModel>, i: int, scrutinee: Seq<char>)
    requires
        0 <= i <= tokens.len(),
    ensures
        parse_arms(tokens, i) is Ok ==> ({
            let (arms, j) = parse_arms(tokens, i)->Ok_0;
            let kinds = arms_kinds(NodeModel::Match { scrutinee, arms }, 0);
            window(tokens, i, kinds) && j == i + kinds.len()
        }),
    decreases tokens.len() - i, 1nat,
{
    if parse_arms(tokens, i) is Ok {
        if is_mark(tokens, i, Mark::RBrace) {
            lemma_window_one(tokens, i, KindModel::Mark(Mark::RBrace));
        } else {
            let pattern = text_at(tokens, i, Class::Pattern)->0;
            lemma_block_spelled(tokens, i + 2);
            let (body, k) = parse_block(tokens, i + 2)->Ok_0;
            let arm = ArmModel { pattern, body };
            lemma_arms_spelled(tokens, k, scrutinee);
            let (rest, _) = parse_arms(tokens, k)->Ok_0;
            let all = seq![arm] + rest;
            lemma_arms_shift(arm, rest, scrutinee, 0);
            let a = seq![KindModel::Text(Class::Pattern, pattern), KindModel::Mark(Mark::Arrow)];
            lemma_window_two(tokens, i, a[0], a[1]);
            lemma_window_join(tokens, i, a, block_kinds(body));
            lemma_window_join(
                tokens,
                i,
                a + block_kinds(body),
                arms_kinds(NodeModel::Match { scrutinee, arms: rest }, 0),
            );
            assert(all[0] == arm);
        }
    }
}

proof fn lemma_node_spelled(tokens: Seq<TokenModel>, i: int)
    requires
        0 <= i <= tokens.len(),
    ensures
        parse_node(tokens, i) is Ok ==> ({
            let (node, j) = parse_node(tokens, i)->Ok_0;
            window(tokens, i, node_kinds(node)) && j == i + node_kinds(node).len() && j > i
        }),
    decreases tokens.len() - i, 2nat,
{
    if parse_node(tokens, i) is Ok {
        let (node, end) = parse_node(tokens, i)->Ok_0;
        match kind_at(tokens, i) {
            Some(KindModel::Mark(Mark::Lt)) => {
                let name = text_at(tokens, i + 1, Class::Name)->0;
                let a = seq![KindModel::Mark(Mark::Lt), KindModel::Text(Class::Name, name)];
                lemma_window_two(tokens, i, a[0], a[1]);
                lemma_attrs_spelled(tokens, i + 2);
                let (attributes, j) = parse_attrs(tokens, i + 2)->Ok_0;
                let b = attrs_kinds(attributes, 0);
                lemma_window_join(tokens, i, a, b);
                if is_mark(tokens, j, Mark::SlashGt) {
                    let t = seq![KindModel::Mark(Mark::SlashGt)];
                    lemma_window_one(tokens, j, t[0]);
                    lemma_window_join(tokens, i, a + b, t);
                } else {
                    lemma_nodes_spelled(tokens, j + 1);
                    let (children, k) = parse_nodes(tokens, j + 1)->Ok_0;
                    let close_name = text_at(tokens, k, Class::Close)->0;
                    let c = seq![KindModel::Mark(Mark::Gt)];
                    let d = nodes_kinds(children, 0);
                    let e = seq![KindModel::Text(Class::Close, close_name)];
                    lemma_window_one(tokens, j, c[0]);
                    lemma_window_join(tokens, j, c, d);
                    lemma_window_one(tokens, k, e[0]);
                    lemma_window_join(tokens, j, c + d, e);
                    lemma_window_join(tokens, i, a + b, c + d + e);
                }
            },
            Some(KindModel::Mark(Mark::DoctypeOpen)) => {
                lemma_texts_spelled(tokens, i + 1);
                let (t, j) = parse_texts(tokens, i + 1);
                let a = seq![KindModel::Mark(Mark::DoctypeOpen)];
                let c = seq![KindModel::Mark(Mark::Gt)];
                lemma_window_one(tokens, i, a[0]);
                lemma_window_join(tokens, i, a, texts_kinds(t, 0));
                lemma_window_one(tokens, j, c[0]);
                lemma_window_join(tokens, i, a + texts_kinds(t, 0), c);
            },
            Some(KindModel::Mark(Mark::PiOpen)) => {
                let name = text_at(tokens, i + 1, Class::Name)->0;
                let first = NodeModel::Literal(name);
                lemma_pi_attrs_spelled(tokens, i + 2, seq![first]);
                let (t, j) = parse_pi_attrs(tokens, i + 2)->Ok_0;
                let all = seq![first] + t;
                let a = seq![KindModel::Mark(Mark::PiOpen), KindModel::Text(Class::Name, name)];
                let b = written_kinds(all, 1);
                let c = seq![KindModel::Mark(Mark::PiClose)];
                lemma_window_two(tokens, i, a[0], a[1]);
                lemma_window_join(tokens, i, a, b);
                lemma_window_one(tokens, j, c[0]);
                lemma_window_join(tokens, i, a + b, c);
                assert(all[0] == first);
            },
            Some(KindModel::Mark(Mark::CommentOpen)) => {
                lemma_texts_spelled(tokens, i + 1);
                let (t, j) = parse_texts(tokens, i + 1);
                let a = seq![KindModel::Mark(Mark::CommentOpen)];
                let c = seq![KindModel::Mark(Mark::CommentClose)];
                lemma_window_one(tokens, i, a[0]);
                lemma_window_join(tokens, i, a, texts_kinds(t, 0));
                lemma_window_one(tokens, j, c[0]);
                lemma_window_join(tokens, i, a + texts_kinds(t, 0), c);
            },
            Some(KindModel::Mark(Mark::CDataOpen)) => {
                lemma_texts_spelled(tokens, i + 1);
                let (t, j) = parse_texts(tokens, i + 1);
                let a = seq![KindModel::Mark(Mark::CDataOpen)];
                let c = seq![KindModel::Mark(Mark::CDataClose)];
                lemma_window_one(tokens, i, a[0]);
                lemma_window_join(tokens, i, a, texts_kinds(t, 0));
                lemma_window_one(tokens, j, c[0]);
                lemma_window_join(tokens, i, a + texts_kinds(t, 0), c);
            },
            Some(KindModel::Mark(Mark::If)) => {
                lemma_branches_spelled(tokens, i);
            },
            Some(KindModel::Mark(Mark::Match)) => {
                let scrutinee = text_at(tokens, i + 1, Class::Paren)->0;
                lemma_arms_spelled(tokens, i + 3, scrutinee);
                let (arms, j) = parse_arms(tokens, i + 3)->Ok_0;
                let a = seq![
                    KindModel::Mark(Mark::Match),
                    KindModel::Text(Class::Paren, scrutinee),
                ];
                lemma_window_two(tokens, i, a[0], a[1]);
                lemma_window_more(tokens, i, a, KindModel::Mark(Mark::LBrace));
                assert(a.push(KindModel::Mark(Mark::LBrace)) == seq![
                    KindModel::Mark(Mark::Match),
                    KindModel::Text(Class::Paren, scrutinee),
                    KindModel::Mark(Mark::LBrace),
                ]);
                lemma_window_join(
                    tokens,
                    i,
                    a.push(KindModel::Mark(Mark::LBrace)),
                    arms_kinds(NodeModel::Match { scrutinee, arms }, 0),
                );
            },
            Some(KindModel::Mark(Mark::For)) => {
                let pattern = text_at(tokens, i + 1, Class::Pattern)->0;
                let iterable = text_at(tokens, i + 3, Class::Paren)->0;
                lemma_block_spelled(tokens, i + 4);
                let (body, j) = parse_block(tokens, i + 4)->Ok_0;
                let a = seq![KindModel::Mark(Mark::For), KindModel::Text(Class::Pattern, pattern)];
                lemma_window_two(tokens, i, a[0], a[1]);
                lemma_window_more(tokens, i, a, KindModel::Mark(Mark::In));
                let b = a.push(KindModel::Mark(Mark::In));
                lemma_window_more(tokens, i, b, KindModel::Text(Class::Paren, iterable));
                let c = b.push(KindModel::Text(Class::Paren, iterable));
                assert(c == seq![
                    KindModel::Mark(Mark::For),
                    KindModel::Text(Class::Pattern, pattern),
                    KindModel::Mark(Mark::In),
                    KindModel::Text(Class::Paren, iterable),
                ]);
                lemma_window_join(tokens, i, c, block_kinds(body));
            },
            Some(KindModel::Mark(Mark::Let)) => {
                let pattern = text_at(tokens, i + 1, Class::Pattern)->0;
                let value = text_at(tokens, i + 3, Class::Expr)->0;
                let a = seq![KindModel::Mark(Mark::Let), KindModel::Text(Class::Pattern, pattern)];
                lemma_window_two(tokens, i, a[0], a[1]);
                lemma_window_more(tokens, i, a, KindModel::Mark(Mark::Eq));
                let b = a.push(KindModel::Mark(Mark::Eq));
                lemma_window_more(tokens, i, b, KindModel::Text(Class::Expr, value));
                let c = b.push(KindModel::Text(Class::Expr, value));
                lemma_window_more(tokens, i, c, KindModel::Mark(Mark::Semi));
                assert(c.push(KindModel::Mark(Mark::Semi)) == node_kinds(node));
            },
            Some(kind) => {
                lemma_window_one(tokens, i, kind);
            },
            None => {},
        }
    }
}

/// The parser accepts the token forms of the sayable trees and nothing
/// else: tokens parse to a tree if and only if the tree is sayable and the
/// tokens spell it.
pub proof fn law_parser_exact(tokens: Seq<TokenModel>, nodes: Seq<NodeModel>)
    ensures
        parsed(tokens) == Ok::<Seq<NodeModel>, ParseError>(nodes) <==> all_sayable(nodes)
            && spells(tokens, nodes_kinds(nodes, 0)),
{
    if all_sayable(nodes) && spells(tokens, nodes_kinds(nodes, 0)) {
        law_parser_reads_back(tokens, nodes);
    }
    if parsed(tokens) == Ok::<Seq<NodeModel>, ParseError>(nodes) {
        law_parsed_sayable(tokens);
        lemma_nodes_spelled(tokens, 0);
    }
}

} // verus!
