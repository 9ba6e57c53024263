//! The parser: from tokens to a document tree, by recursive descent.
//!
//! The next token decides what is parsed: `<` and its kin begin a tag or a
//! wrapper, a keyword begins a control construct, a literal or a slot is a
//! text node. Anything else ends the body that is being parsed, and whoever
//! asked for the body says whether it ends well. The first token that does
//! not fit fails the whole parse.

use vstd::prelude::*;
use vstd::string::StringExecFns;
use crate::token::{Class, KindModel, Mark, Token, TokenKind, TokenModel, tokens_model};
use crate::tree::{
    arms_model, attributes_model, branches_model, guardeds_model, node_model, nodes_model, Arm,
    ArmModel, AttrValue, AttrValueModel, Attribute, AttributeModel, Branch, BranchModel, Guarded,
    GuardedModel, Node, NodeModel,
};

verus! {

/// What the parser was waiting for when it met a token that did not fit.
#[derive(Clone, Copy, Debug, PartialEq, Eq, Structural)]
pub enum Expected {
    /// A node, or the end of the template.
    Node,
    /// The name of a tag.
    Name,
    /// `=` after the name of an attribute.
    Assign,
    /// The value of an attribute.
    Value,
    /// An attribute, `>` or `/>`.
    TagEnd,
    /// A closing tag.
    ClosingTag,
    /// An expression in parentheses.
    Condition,
    /// `{`
    BodyOpen,
    /// A node or `}`.
    BodyClose,
    /// A pattern.
    Pattern,
    /// `=>`
    Arrow,
    /// `in`
    In,
    /// The expression of a binding.
    Expression,
    /// `;`
    Semi,
    /// The quoted literal of an entry.
    Literal,
    /// `:` and a condition.
    Guard,
    /// `,` or `]`.
    ListEnd,
    /// A literal, a slot or `>`.
    DoctypeEnd,
    /// An attribute or `?>`.
    PiEnd,
    /// A literal, a slot or `-->`.
    CommentEnd,
    /// A literal, a slot or `]]>`.
    CDataEnd,
}

/// Where the parse failed, as an index into the tokens (their number, where
/// the tokens ended too early), and what was expected there.
#[derive(Clone, Copy, Debug, PartialEq, Eq, Structural)]
pub struct ParseError {
    pub index: usize,
    pub expected: Expected,
}

/// The failure of a parse at the token `i`.
pub open spec fn fail<T>(i: int, expected: Expected) -> Result<T, ParseError> {
    Err(ParseError { index: i as usize, expected })
}

/// The kind of the token at `i`, if there is one.
pub open spec fn kind_at(tokens: Seq<TokenModel>, i: int) -> Option<KindModel> {
    if 0 <= i < tokens.len() {
        Some(tokens[i].kind)
    } else {
        None
    }
}

/// Whether the token at `i` is the mark `m`.
pub open spec fn is_mark(tokens: Seq<TokenModel>, i: int, m: Mark) -> bool {
    kind_at(tokens, i) == Some(KindModel::Mark(m))
}

/// The text of the token at `i`, where it is a token of that class.
pub open spec fn text_at(tokens: Seq<TokenModel>, i: int, class: Class) -> Option<Seq<char>> {
    match kind_at(tokens, i) {
        Some(KindModel::Text(c, t)) if c == class => Some(t),
        _ => None,
    }
}

/// A sequence that has been parsed up to an index, with `acc` before it.
pub open spec fn after<T>(acc: Seq<T>, r: Result<(Seq<T>, int), ParseError>) -> Result<
    (Seq<T>, int),
    ParseError,
> {
    match r {
        Ok((rest, j)) => Ok((acc + rest, j)),
        Err(e) => Err(e),
    }
}

/// The entries of a conditional list and the `]` that ends it, from an
/// entry on: `"literal": condition`, with a comma between two of them.
pub open spec fn parse_entry_list(tokens: Seq<TokenModel>, i: int) -> Result<
    (Seq<GuardedModel>, int),
    ParseError,
>
    decreases tokens.len() - i,
{
    match (text_at(tokens, i, Class::Literal), text_at(tokens, i + 1, Class::Guard)) {
        (None, _) => fail(i, Expected::Literal),
        (Some(_), None) => fail(i + 1, Expected::Guard),
        (Some(literal), Some(condition)) => {
            let entry = GuardedModel { literal, condition };
            if is_mark(tokens, i + 2, Mark::RBracket) {
                Ok((seq![entry], i + 3))
            } else if is_mark(tokens, i + 2, Mark::Comma) {
                after(seq![entry], parse_entry_list(tokens, i + 3))
            } else {
                fail(i + 2, Expected::ListEnd)
            }
        },
    }
}

/// A conditional list from after `[` up to and with `]`: no entry, or
/// entries with a comma between two of them.
pub open spec fn parse_entries(tokens: Seq<TokenModel>, i: int) -> Result<
    (Seq<GuardedModel>, int),
    ParseError,
> {
    if is_mark(tokens, i, Mark::RBracket) {
        Ok((Seq::empty(), i + 1))
    } else {
        parse_entry_list(tokens, i)
    }
}

/// The value of an attribute.
pub open spec fn parse_value(tokens: Seq<TokenModel>, i: int) -> Result<
    (AttrValueModel, int),
    ParseError,
> {
    match kind_at(tokens, i) {
        Some(KindModel::Text(Class::Literal, t)) => Ok((AttrValueModel::Static(t), i + 1)),
        Some(KindModel::Slot { expr, spec }) => Ok((AttrValueModel::Slot { expr, spec }, i + 1)),
        Some(KindModel::Mark(Mark::LBracket)) => match parse_entries(tokens, i + 1) {
            Ok((entries, j)) => Ok((AttrValueModel::ConditionalList(entries), j)),
            Err(e) => Err(e),
        },
        _ => fail(i, Expected::Value),
    }
}

/// The attributes of a tag: as many `name=value` as there are.
pub open spec fn parse_attrs(tokens: Seq<TokenModel>, i: int) -> Result<
    (Seq<AttributeModel>, int),
    ParseError,
>
    decreases tokens.len() - i,
{
    match text_at(tokens, i, Class::Name) {
        None => Ok((Seq::empty(), i)),
        Some(name) => if !is_mark(tokens, i + 1, Mark::Eq) {
            fail(i + 1, Expected::Assign)
        } else {
            match parse_value(tokens, i + 2) {
                Err(e) => Err(e),
                Ok((value, j)) => if i < j <= tokens.len() {
                    after(seq![AttributeModel { name, value }], parse_attrs(tokens, j))
                } else {
                    Ok((seq![AttributeModel { name, value }], j))
                },
            }
        },
    }
}

/// The text nodes of a wrapper: as many literals and slots as there are.
pub open spec fn parse_texts(tokens: Seq<TokenModel>, i: int) -> (Seq<NodeModel>, int)
    decreases tokens.len() - i,
{
    match kind_at(tokens, i) {
        Some(KindModel::Text(Class::Literal, t)) => {
            let (rest, j) = parse_texts(tokens, i + 1);
            (seq![NodeModel::Literal(t)] + rest, j)
        },
        Some(KindModel::Slot { expr, spec }) => {
            let (rest, j) = parse_texts(tokens, i + 1);
            (seq![NodeModel::Slot { expr, spec }] + rest, j)
        },
        _ => (Seq::empty(), i),
    }
}

/// The attributes of a processing instruction, each as the text nodes that
/// write it: a space, the name and `="`, then the value, then `"`.
pub open spec fn parse_pi_attrs(tokens: Seq<TokenModel>, i: int) -> Result<
    (Seq<NodeModel>, int),
    ParseError,
>
    decreases tokens.len() - i,
{
    match text_at(tokens, i, Class::Name) {
        None => Ok((Seq::empty(), i)),
        Some(name) => if !is_mark(tokens, i + 1, Mark::Eq) {
            fail(i + 1, Expected::Assign)
        } else {
            let open = NodeModel::Literal(" "@ + name + "=\""@);
            let close = NodeModel::Literal("\""@);
            match kind_at(tokens, i + 2) {
                Some(KindModel::Text(Class::Literal, t)) => after(
                    seq![open, NodeModel::Literal(t), close],
                    parse_pi_attrs(tokens, i + 3),
                ),
                Some(KindModel::Slot { expr, spec }) => after(
                    seq![open, NodeModel::Slot { expr, spec }, close],
                    parse_pi_attrs(tokens, i + 3),
                ),
                _ => fail(i + 2, Expected::Value),
            }
        },
    }
}

/// Whether the token at `i` begins a node.
pub open spec fn starts_node(tokens: Seq<TokenModel>, i: int) -> bool {
    match kind_at(tokens, i) {
        Some(KindModel::Text(Class::Literal, _)) => true,
        Some(KindModel::Slot { .. }) => true,
        Some(KindModel::Mark(m)) => m == Mark::Lt || m == Mark::DoctypeOpen || m == Mark::PiOpen
            || m == Mark::CommentOpen || m == Mark::CDataOpen || m == Mark::If || m == Mark::Match
            || m == Mark::For || m == Mark::Let,
        _ => false,
    }
}

/// The nodes of a body: as many as there are, up to the first token that
/// begins none.
pub open spec fn parse_nodes(tokens: Seq<TokenModel>, i: int) -> Result<
    (Seq<NodeModel>, int),
    ParseError,
>
    decreases tokens.len() - i, 3nat,
{
    if !starts_node(tokens, i) {
        Ok((Seq::empty(), i))
    } else {
        match parse_node(tokens, i) {
            Err(e) => Err(e),
            Ok((node, j)) => if i < j <= tokens.len() {
                after(seq![node], parse_nodes(tokens, j))
            } else {
                Ok((seq![node], j))
            },
        }
    }
}

/// A body between `{` at `i` and `}`: the nodes, and the index after `}`.
pub open spec fn parse_block(tokens: Seq<TokenModel>, i: int) -> Result<
    (Seq<NodeModel>, int),
    ParseError,
>
    decreases tokens.len() - i, 0nat,
{
    if !is_mark(tokens, i, Mark::LBrace) {
        fail(i, Expected::BodyOpen)
    } else {
        match parse_nodes(tokens, i + 1) {
            Err(e) => Err(e),
            Ok((body, k)) => if is_mark(tokens, k, Mark::RBrace) {
                Ok((body, k + 1))
            } else {
                fail(k, Expected::BodyClose)
            },
        }
    }
}

/// One node, which the token at `i` begins.
pub open spec fn parse_node(tokens: Seq<TokenModel>, i: int) -> Result<(NodeModel, int), ParseError>
    decreases tokens.len() - i, 2nat,
{
    match kind_at(tokens, i) {
        Some(KindModel::Text(Class::Literal, t)) => Ok((NodeModel::Literal(t), i + 1)),
        Some(KindModel::Slot { expr, spec }) => Ok((NodeModel::Slot { expr, spec }, i + 1)),
        Some(KindModel::Mark(Mark::Lt)) => match text_at(tokens, i + 1, Class::Name) {
            None => fail(i + 1, Expected::Name),
            Some(name) => match parse_attrs(tokens, i + 2) {
                Err(e) => Err(e),
                Ok((attributes, j)) => if is_mark(tokens, j, Mark::SlashGt) {
                    Ok(
                        (
                            NodeModel::Element {
                                name,
                                attributes,
                                self_closing: true,
                                children: Seq::empty(),
                                close_name: Seq::empty(),
                            },
                            j + 1,
                        ),
                    )
                } else if is_mark(tokens, j, Mark::Gt) && j > i {
                    match parse_nodes(tokens, j + 1) {
                        Err(e) => Err(e),
                        Ok((children, k)) => match text_at(tokens, k, Class::Close) {
                            Some(close_name) => Ok(
                                (
                                    NodeModel::Element {
                                        name,
                                        attributes,
                                        self_closing: false,
                                        children,
                                        close_name,
                                    },
                                    k + 1,
                                ),
                            ),
                            None => fail(k, Expected::ClosingTag),
                        },
                    }
                } else {
                    fail(j, Expected::TagEnd)
                },
            },
        },
        Some(KindModel::Mark(Mark::DoctypeOpen)) => {
            let (t, j) = parse_texts(tokens, i + 1);
            if is_mark(tokens, j, Mark::Gt) {
                Ok((NodeModel::Doctype(t), j + 1))
            } else {
                fail(j, Expected::DoctypeEnd)
            }
        },
        Some(KindModel::Mark(Mark::PiOpen)) => match text_at(tokens, i + 1, Class::Name) {
            None => fail(i + 1, Expected::Name),
            Some(name) => match parse_pi_attrs(tokens, i + 2) {
                Err(e) => Err(e),
                Ok((t, j)) => if is_mark(tokens, j, Mark::PiClose) {
                    Ok((NodeModel::ProcessingInstruction(seq![NodeModel::Literal(name)] + t), j + 1))
                } else {
                    fail(j, Expected::PiEnd)
                },
            },
        },
        Some(KindModel::Mark(Mark::CommentOpen)) => {
            let (t, j) = parse_texts(tokens, i + 1);
            if is_mark(tokens, j, Mark::CommentClose) {
                Ok((NodeModel::Comment(t), j + 1))
            } else {
                fail(j, Expected::CommentEnd)
            }
        },
        Some(KindModel::Mark(Mark::CDataOpen)) => {
            let (t, j) = parse_texts(tokens, i + 1);
            if is_mark(tokens, j, Mark::CDataClose) {
                Ok((NodeModel::CData(t), j + 1))
            } else {
                fail(j, Expected::CDataEnd)
            }
        },
        Some(KindModel::Mark(Mark::If)) => match parse_branches(tokens, i) {
            Err(e) => Err(e),
            Ok(((branches, else_body), j)) => Ok((NodeModel::If { branches, else_body }, j)),
        },
        Some(KindModel::Mark(Mark::Match)) => match text_at(tokens, i + 1, Class::Paren) {
            None => fail(i + 1, Expected::Condition),
            Some(scrutinee) => if !is_mark(tokens, i + 2, Mark::LBrace) {
                fail(i + 2, Expected::BodyOpen)
            } else {
                match parse_arms(tokens, i + 3) {
                    Err(e) => Err(e),
                    Ok((arms, j)) => Ok((NodeModel::Match { scrutinee, arms }, j)),
                }
            },
        },
        Some(KindModel::Mark(Mark::For)) => match text_at(tokens, i + 1, Class::Pattern) {
            None => fail(i + 1, Expected::Pattern),
            Some(pattern) => if !is_mark(tokens, i + 2, Mark::In) {
                fail(i + 2, Expected::In)
            } else {
                match text_at(tokens, i + 3, Class::Paren) {
                    None => fail(i + 3, Expected::Condition),
                    Some(iterable) => match parse_block(tokens, i + 4) {
                        Err(e) => Err(e),
                        Ok((body, j)) => Ok((NodeModel::For { pattern, iterable, body }, j)),
                    },
                }
            },
        },
        Some(KindModel::Mark(Mark::Let)) => match text_at(tokens, i + 1, Class::Pattern) {
            None => fail(i + 1, Expected::Pattern),
            Some(pattern) => if !is_mark(tokens, i + 2, Mark::Eq) {
                fail(i + 2, Expected::Assign)
            } else {
                match text_at(tokens, i + 3, Class::Expr) {
                    None => fail(i + 3, Expected::Expression),
                    Some(value) => if is_mark(tokens, i + 4, Mark::Semi) {
                        Ok((NodeModel::LetBinding { pattern, value }, i + 5))
                    } else {
                        fail(i + 4, Expected::Semi)
                    },
                }
            },
        },
        _ => fail(i, Expected::Node),
    }
}

/// The branches of a conditional whose `if` stands at `i`, and its else
/// body: `if (c) { .. }`, then any number of `else if (c) { .. }`, then
/// `else { .. }` or nothing.
pub open spec fn parse_branches(tokens: Seq<TokenModel>, i: int) -> Result<
    ((Seq<BranchModel>, Option<Seq<NodeModel>>), int),
    ParseError,
>
    decreases tokens.len() - i, 1nat,
{
    match text_at(tokens, i + 1, Class::Paren) {
        None => fail(i + 1, Expected::Condition),
        Some(condition) => match parse_block(tokens, i + 2) {
            Err(e) => Err(e),
            Ok((body, k)) => {
                let branch = BranchModel { condition, body };
                if !is_mark(tokens, k, Mark::Else) || k <= i {
                    Ok(((seq![branch], None), k))
                } else if is_mark(tokens, k + 1, Mark::If) {
                    match parse_branches(tokens, k + 1) {
                        Err(e) => Err(e),
                        Ok(((rest, else_body), j)) => Ok(((seq![branch] + rest, else_body), j)),
                    }
                } else {
                    match parse_block(tokens, k + 1) {
                        Err(e) => Err(e),
                        Ok((else_body, j)) => Ok(((seq![branch], Some(else_body)), j)),
                    }
                }
            },
        },
    }
}

/// The arms of a match, from after `{` up to and with `}`.
pub open spec fn parse_arms(tokens: Seq<TokenModel>, i: int) -> Result<
    (Seq<ArmModel>, int),
    ParseError,
>
    decreases tokens.len() - i, 1nat,
{
    if is_mark(tokens, i, Mark::RBrace) {
        Ok((Seq::empty(), i + 1))
    } else {
        match text_at(tokens, i, Class::Pattern) {
            None => fail(i, Expected::Pattern),
            Some(pattern) => if !is_mark(tokens, i + 1, Mark::Arrow) {
                fail(i + 1, Expected::Arrow)
            } else {
                match parse_block(tokens, i + 2) {
                    Err(e) => Err(e),
                    Ok((body, k)) => if i < k <= tokens.len() {
                        after(seq![ArmModel { pattern, body }], parse_arms(tokens, k))
                    } else {
                        Ok((seq![ArmModel { pattern, body }], k))
                    },
                }
            },
        }
    }
}

/// The tree of a template: its nodes, where the tokens are those of nodes
/// and of nothing else.
pub open spec fn parsed(tokens: Seq<TokenModel>) -> Result<Seq<NodeModel>, ParseError> {
    match parse_nodes(tokens, 0) {
        Err(e) => Err(e),
        Ok((nodes, j)) => if j == tokens.len() {
            Ok(nodes)
        } else {
            fail(j, Expected::Node)
        },
    }
}

proof fn lemma_after_after<T>(acc: Seq<T>, one: Seq<T>, r: Result<(Seq<T>, int), ParseError>)
    ensures
        after(acc, after(one, r)) == after(acc + one, r),
{
    match r {
        Ok((rest, j)) => {
            assert(acc + (one + rest) == (acc + one) + rest);
        },
        Err(_) => {},
    }
}

proof fn lemma_after_nothing<T>(r: Result<(Seq<T>, int), ParseError>)
    ensures
        after(Seq::empty(), r) == r,
{
    match r {
        Ok((rest, j)) => {
            assert(Seq::<T>::empty() + rest == rest);
        },
        Err(_) => {},
    }
}

/// Whether the token `k` places after `i` is the mark `m`.
fn mark_at(tokens: &Vec<Token>, i: usize, k: usize, m: Mark) -> (r: bool)
    requires
        i <= tokens.len(),
    ensures
        r == is_mark(tokens_model(tokens@), i + k, m),
        r ==> i + k < tokens.len(),
{
    if k < tokens.len() - i {
        match &tokens[i + k].kind {
            TokenKind::Mark(x) => *x == m,
            _ => false,
        }
    } else {
        false
    }
}

/// The text of the token `k` places after `i`, where it is of that class.
fn text_in(tokens: &Vec<Token>, i: usize, k: usize, class: Class) -> (r: Option<&String>)
    requires
        i <= tokens.len(),
    ensures
        match r {
            Some(t) => text_at(tokens_model(tokens@), i + k, class) == Some(t@) && i + k
                < tokens.len(),
            None => text_at(tokens_model(tokens@), i + k, class) is None,
        },
{
    if k < tokens.len() - i {
        match &tokens[i + k].kind {
            TokenKind::Text(c, t) => if *c == class {
                Some(t)
            } else {
                None
            },
            _ => None,
        }
    } else {
        None
    }
}

fn copy_opt(s: &Option<String>) -> (r: Option<String>)
    ensures
        crate::tree::opt_text(r) == crate::tree::opt_text(*s),
{
    match s {
        Some(t) => Some(t.clone()),
        None => None,
    }
}

#[verifier::loop_isolation(false)]
fn parse_entries_at(tokens: &Vec<Token>, from: usize) -> (r: Result<(Vec<Guarded>, usize), ParseError>)
    requires
        from <= tokens.len(),
    ensures
        match r {
            Ok((entries, j)) => parse_entries(tokens_model(tokens@), from as int) == Ok::<
                (Seq<GuardedModel>, int),
                ParseError,
            >((guardeds_model(entries@), j as int)) && from < j <= tokens.len(),
            Err(e) => parse_entries(tokens_model(tokens@), from as int) == Err::<
                (Seq<GuardedModel>, int),
                ParseError,
            >(e),
        },
{
    let ghost model = tokens_model(tokens@);
    let mut acc: Vec<Guarded> = Vec::new();
    if mark_at(tokens, from, 0, Mark::RBracket) {
        assert(guardeds_model(acc@) == Seq::<GuardedModel>::empty());
        return Ok((acc, from + 1));
    }
    let mut i: usize = from;
    proof {
        lemma_after_nothing(parse_entry_list(model, from as int));
    }
    loop
        invariant
            from <= i <= tokens.len(),
            parse_entries(model, from as int) == after(
                guardeds_model(acc@),
                parse_entry_list(model, i as int),
            ),
        decreases tokens.len() - i,
    {
        let literal = match text_in(tokens, i, 0, Class::Literal) {
            None => {
                return Err(ParseError { index: i, expected: Expected::Literal });
            },
            Some(t) => t,
        };
        let condition = match text_in(tokens, i, 1, Class::Guard) {
            None => {
                return Err(ParseError { index: i + 1, expected: Expected::Guard });
            },
            Some(t) => t,
        };
        let ghost before = guardeds_model(acc@);
        let ghost entry = GuardedModel { literal: literal@, condition: condition@ };
        acc.push(Guarded { literal: literal.clone(), condition: condition.clone() });
        assert(guardeds_model(acc@) == before + seq![entry]);
        if mark_at(tokens, i, 2, Mark::RBracket) {
            return Ok((acc, i + 3));
        } else if mark_at(tokens, i, 2, Mark::Comma) {
            proof {
                lemma_after_after(before, seq![entry], parse_entry_list(model, i + 3));
            }
            i = i + 3;
        } else {
            return Err(ParseError { index: i + 2, expected: Expected::ListEnd });
        }
    }
}

fn parse_value_at(tokens: &Vec<Token>, i: usize) -> (r: Result<(AttrValue, usize), ParseError>)
    requires
        i <= tokens.len(),
    ensures
        match r {
            Ok((value, j)) => parse_value(tokens_model(tokens@), i as int) == Ok::<
                (AttrValueModel, int),
                ParseError,
            >((crate::tree::attr_value_model(value), j as int)) && i < j <= tokens.len(),
            Err(e) => parse_value(tokens_model(tokens@), i as int) == Err::<
                (AttrValueModel, int),
                ParseError,
            >(e),
        },
{
    if i >= tokens.len() {
        return Err(ParseError { index: i, expected: Expected::Value });
    }
    match &tokens[i].kind {
        TokenKind::Text(Class::Literal, t) => Ok((AttrValue::Static(t.clone()), i + 1)),
        TokenKind::Slot { expr, spec } => Ok(
            (AttrValue::Slot { expr: expr.clone(), spec: copy_opt(spec) }, i + 1),
        ),
        TokenKind::Mark(Mark::LBracket) => match parse_entries_at(tokens, i + 1) {
            Ok((entries, j)) => Ok((AttrValue::ConditionalList(entries), j)),
            Err(e) => Err(e),
        },
        _ => Err(ParseError { index: i, expected: Expected::Value }),
    }
}

#[verifier::loop_isolation(false)]
fn parse_attrs_at(tokens: &Vec<Token>, from: usize) -> (r: Result<(Vec<Attribute>, usize), ParseError>)
    requires
        from <= tokens.len(),
    ensures
        match r {
            Ok((attrs, j)) => parse_attrs(tokens_model(tokens@), from as int) == Ok::<
                (Seq<AttributeModel>, int),
                ParseError,
            >((attributes_model(attrs@), j as int)) && from <= j <= tokens.len(),
            Err(e) => parse_attrs(tokens_model(tokens@), from as int) == Err::<
                (Seq<AttributeModel>, int),
                ParseError,
            >(e),
        },
{
    let ghost model = tokens_model(tokens@);
    let mut acc: Vec<Attribute> = Vec::new();
    let mut i: usize = from;
    proof {
        lemma_after_nothing(parse_attrs(model, from as int));
    }
    loop
        invariant
            from <= i <= tokens.len(),
            parse_attrs(model, from as int) == after(
                attributes_model(acc@),
                parse_attrs(model, i as int),
            ),
        decreases tokens.len() - i,
    {
        let name = match text_in(tokens, i, 0, Class::Name) {
            None => {
                assert(attributes_model(acc@) + Seq::<AttributeModel>::empty() == attributes_model(
                    acc@,
                ));
                return Ok((acc, i));
            },
            Some(t) => t,
        };
        if !mark_at(tokens, i, 1, Mark::Eq) {
            return Err(ParseError { index: i + 1, expected: Expected::Assign });
        }
        match parse_value_at(tokens, i + 2) {
            Err(e) => {
                return Err(e);
            },
            Ok((value, j)) => {
                let ghost before = attributes_model(acc@);
                let ghost one = AttributeModel {
                    name: name@,
                    value: crate::tree::attr_value_model(value),
                };
                acc.push(Attribute { name: name.clone(), value });
                proof {
                    assert(attributes_model(acc@) == before + seq![one]);
                    lemma_after_after(before, seq![one], parse_attrs(model, j as int));
                }
                i = j;
            },
        }
    }
}

#[verifier::loop_isolation(false)]
fn parse_texts_at(tokens: &Vec<Token>, from: usize) -> (r: (Vec<Node>, usize))
    requires
        from <= tokens.len(),
    ensures
        parse_texts(tokens_model(tokens@), from as int) == (nodes_model(r.0@), r.1 as int),
        from <= r.1 <= tokens.len(),
{
    let ghost model = tokens_model(tokens@);
    let mut acc: Vec<Node> = Vec::new();
    let mut i: usize = from;
    assert(nodes_model(acc@) + parse_texts(model, from as int).0 == parse_texts(
        model,
        from as int,
    ).0);
    while i < tokens.len()
        invariant
            from <= i <= tokens.len(),
            parse_texts(model, from as int) == (
                nodes_model(acc@) + parse_texts(model, i as int).0,
                parse_texts(model, i as int).1,
            ),
        decreases tokens.len() - i,
    {
        let ghost before = nodes_model(acc@);
        let ghost rest = parse_texts(model, i + 1).0;
        match &tokens[i].kind {
            TokenKind::Text(Class::Literal, t) => {
                acc.push(Node::Literal(t.clone()));
                assert(nodes_model(acc@) == before + seq![NodeModel::Literal(t@)]);
                assert(before + (seq![NodeModel::Literal(t@)] + rest) == before + seq![
                    NodeModel::Literal(t@),
                ] + rest);
            },
            TokenKind::Slot { expr, spec } => {
                let node = Node::Slot { expr: expr.clone(), spec: copy_opt(spec) };
                let ghost m = node_model(node);
                acc.push(node);
                assert(nodes_model(acc@) == before + seq![m]);
                assert(before + (seq![m] + rest) == before + seq![m] + rest);
            },
            _ => {
                assert(nodes_model(acc@) + Seq::<NodeModel>::empty() == nodes_model(acc@));
                return (acc, i);
            },
        }
        i = i + 1;
    }
    assert(nodes_model(acc@) + Seq::<NodeModel>::empty() == nodes_model(acc@));
    (acc, i)
}

/// The text that opens an attribute of a processing instruction.
fn pi_open(name: &String) -> (r: String)
    ensures
        r@ == " "@ + name@ + "=\""@,
{
    let mut t = String::new();
    t.append(" ");
    t.append(name.as_str());
    t.append("=\"");
    assert(t@ == " "@ + name@ + "=\""@);
    t
}

fn pi_close() -> (r: String)
    ensures
        r@ == "\""@,
{
    let mut t = String::new();
    t.append("\"");
    assert(t@ == "\""@);
    t
}

#[verifier::loop_isolation(false)]
fn parse_pi_attrs_at(tokens: &Vec<Token>, from: usize, acc: &mut Vec<Node>) -> (r: Result<
    usize,
    ParseError,
>)
    requires
        from <= tokens.len(),
    ensures
        match r {
            Ok(j) => after(nodes_model(old(acc)@), parse_pi_attrs(tokens_model(tokens@), from as int))
                == Ok::<(Seq<NodeModel>, int), ParseError>((nodes_model(final(acc)@), j as int))
                && from <= j <= tokens.len(),
            Err(e) => parse_pi_attrs(tokens_model(tokens@), from as int) == Err::<
                (Seq<NodeModel>, int),
                ParseError,
            >(e),
        },
{
    let ghost model = tokens_model(tokens@);
    let ghost whole = after(nodes_model(acc@), parse_pi_attrs(model, from as int));
    let mut i: usize = from;
    loop
        invariant
            from <= i <= tokens.len(),
            whole == after(nodes_model(acc@), parse_pi_attrs(model, i as int)),
            whole is Err ==> parse_pi_attrs(model, from as int) is Err && whole->Err_0
                == parse_pi_attrs(model, from as int)->Err_0,
        decreases tokens.len() - i,
    {
        let name = match text_in(tokens, i, 0, Class::Name) {
            None => {
                assert(nodes_model(acc@) + Seq::<NodeModel>::empty() == nodes_model(acc@));
                return Ok(i);
            },
            Some(t) => t,
        };
        if !mark_at(tokens, i, 1, Mark::Eq) {
            return Err(ParseError { index: i + 1, expected: Expected::Assign });
        }
        if i + 2 >= tokens.len() {
            return Err(ParseError { index: i + 2, expected: Expected::Value });
        }
        let ghost before = nodes_model(acc@);
        let ghost open = NodeModel::Literal(" "@ + name@ + "=\""@);
        let ghost close = NodeModel::Literal("\""@);
        match &tokens[i + 2].kind {
            TokenKind::Text(Class::Literal, t) => {
                acc.push(Node::Literal(pi_open(name)));
                acc.push(Node::Literal(t.clone()));
                acc.push(Node::Literal(pi_close()));
                proof {
                    assert(nodes_model(acc@) == before + seq![open, NodeModel::Literal(t@), close]);
                    lemma_after_after(
                        before,
                        seq![open, NodeModel::Literal(t@), close],
                        parse_pi_attrs(model, i + 3),
                    );
                }
            },
            TokenKind::Slot { expr, spec } => {
                let node = Node::Slot { expr: expr.clone(), spec: copy_opt(spec) };
                let ghost m = node_model(node);
                acc.push(Node::Literal(pi_open(name)));
                acc.push(node);
                acc.push(Node::Literal(pi_close()));
                proof {
                    assert(nodes_model(acc@) == before + seq![open, m, close]);
                    lemma_after_after(before, seq![open, m, close], parse_pi_attrs(model, i + 3));
                }
            },
            _ => {
                return Err(ParseError { index: i + 2, expected: Expected::Value });
            },
        }
        i = i + 3;
    }
}

/// Parses the nodes of a body from `from` on.
#[verifier::loop_isolation(false)]
fn parse_nodes_at(tokens: &Vec<Token>, from: usize) -> (r: Result<(Vec<Node>, usize), ParseError>)
    requires
        from <= tokens.len(),
    ensures
        match r {
            Ok((nodes, j)) => parse_nodes(tokens_model(tokens@), from as int) == Ok::<
                (Seq<NodeModel>, int),
                ParseError,
            >((nodes_model(nodes@), j as int)) && from <= j <= tokens.len(),
            Err(e) => parse_nodes(tokens_model(tokens@), from as int) == Err::<
                (Seq<NodeModel>, int),
                ParseError,
            >(e),
        },
    decreases tokens.len() - from, 3nat,
{
    let ghost model = tokens_model(tokens@);
    let mut acc: Vec<Node> = Vec::new();
    let mut i: usize = from;
    proof {
        lemma_after_nothing(parse_nodes(model, from as int));
    }
    loop
        invariant
            from <= i <= tokens.len(),
            parse_nodes(model, from as int) == after(
                nodes_model(acc@),
                parse_nodes(model, i as int),
            ),
        decreases tokens.len() - i,
    {
        if !begins_node(tokens, i) {
            assert(nodes_model(acc@) + Seq::<NodeModel>::empty() == nodes_model(acc@));
            return Ok((acc, i));
        }
        match parse_node_at(tokens, i) {
            Err(e) => {
                return Err(e);
            },
            Ok((node, j)) => {
                let ghost before = nodes_model(acc@);
                let ghost one = node_model(node);
                acc.push(node);
                proof {
                    assert(nodes_model(acc@) == before + seq![one]);
                    lemma_after_after(before, seq![one], parse_nodes(model, j as int));
                }
                i = j;
            },
        }
    }
}

fn begins_node(tokens: &Vec<Token>, i: usize) -> (r: bool)
    requires
        i <= tokens.len(),
    ensures
        r == starts_node(tokens_model(tokens@), i as int),
        r ==> i < tokens.len(),
{
    if i >= tokens.len() {
        return false;
    }
    match &tokens[i].kind {
        TokenKind::Text(Class::Literal, _) => true,
        TokenKind::Slot { .. } => true,
        TokenKind::Mark(m) => match m {
            Mark::Lt
            | Mark::DoctypeOpen
            | Mark::PiOpen
            | Mark::CommentOpen
            | Mark::CDataOpen
            | Mark::If
            | Mark::Match
            | Mark::For
            | Mark::Let => true,
            _ => false,
        },
        _ => false,
    }
}

/// Parses a body between `{` at `i` and `}`.
fn parse_block_at(tokens: &Vec<Token>, i: usize) -> (r: Result<(Vec<Node>, usize), ParseError>)
    requires
        i <= tokens.len(),
    ensures
        match r {
            Ok((nodes, j)) => parse_block(tokens_model(tokens@), i as int) == Ok::<
                (Seq<NodeModel>, int),
                ParseError,
            >((nodes_model(nodes@), j as int)) && i < j <= tokens.len(),
            Err(e) => parse_block(tokens_model(tokens@), i as int) == Err::<
                (Seq<NodeModel>, int),
                ParseError,
            >(e),
        },
    decreases tokens.len() - i, 0nat,
{
    if !mark_at(tokens, i, 0, Mark::LBrace) {
        return Err(ParseError { index: i, expected: Expected::BodyOpen });
    }
    match parse_nodes_at(tokens, i + 1) {
        Err(e) => Err(e),
        Ok((body, k)) => {
            if mark_at(tokens, k, 0, Mark::RBrace) {
                Ok((body, k + 1))
            } else {
                Err(ParseError { index: k, expected: Expected::BodyClose })
            }
        },
    }
}

/// Parses the node that the token at `i` begins.
fn parse_node_at(tokens: &Vec<Token>, i: usize) -> (r: Result<(Node, usize), ParseError>)
    requires
        i < tokens.len(),
    ensures
        match r {
            Ok((node, j)) => parse_node(tokens_model(tokens@), i as int) == Ok::<
                (NodeModel, int),
                ParseError,
            >((node_model(node), j as int)) && i < j <= tokens.len(),
            Err(e) => parse_node(tokens_model(tokens@), i as int) == Err::<
                (NodeModel, int),
                ParseError,
            >(e),
        },
    decreases tokens.len() - i, 2nat,
{
    match &tokens[i].kind {
        TokenKind::Text(Class::Literal, t) => Ok((Node::Literal(t.clone()), i + 1)),
        TokenKind::Slot { expr, spec } => Ok(
            (Node::Slot { expr: expr.clone(), spec: copy_opt(spec) }, i + 1),
        ),
        TokenKind::Mark(Mark::Lt) => parse_element_at(tokens, i),
        TokenKind::Mark(Mark::DoctypeOpen) => {
            let (t, j) = parse_texts_at(tokens, i + 1);
            if mark_at(tokens, j, 0, Mark::Gt) {
                Ok((Node::Doctype(t), j + 1))
            } else {
                Err(ParseError { index: j, expected: Expected::DoctypeEnd })
            }
        },
        TokenKind::Mark(Mark::PiOpen) => parse_pi_at(tokens, i),
        TokenKind::Mark(Mark::CommentOpen) => {
            let (t, j) = parse_texts_at(tokens, i + 1);
            if mark_at(tokens, j, 0, Mark::CommentClose) {
                Ok((Node::Comment(t), j + 1))
            } else {
                Err(ParseError { index: j, expected: Expected::CommentEnd })
            }
        },
        TokenKind::Mark(Mark::CDataOpen) => {
            let (t, j) = parse_texts_at(tokens, i + 1);
            if mark_at(tokens, j, 0, Mark::CDataClose) {
                Ok((Node::CData(t), j + 1))
            } else {
                Err(ParseError { index: j, expected: Expected::CDataEnd })
            }
        },
        TokenKind::Mark(Mark::If) => match parse_branches_at(tokens, i) {
            Err(e) => Err(e),
            Ok((branches, else_body, j)) => Ok((Node::If { branches, else_body }, j)),
        },
        TokenKind::Mark(Mark::Match) => {
            let scrutinee = match text_in(tokens, i, 1, Class::Paren) {
                None => {
                    return Err(ParseError { index: i + 1, expected: Expected::Condition });
                },
                Some(t) => t,
            };
            if !mark_at(tokens, i, 2, Mark::LBrace) {
                return Err(ParseError { index: i + 2, expected: Expected::BodyOpen });
            }
            match parse_arms_at(tokens, i + 3) {
                Err(e) => Err(e),
                Ok((arms, j)) => Ok((Node::Match { scrutinee: scrutinee.clone(), arms }, j)),
            }
        },
        TokenKind::Mark(Mark::For) => {
            let pattern = match text_in(tokens, i, 1, Class::Pattern) {
                None => {
                    return Err(ParseError { index: i + 1, expected: Expected::Pattern });
                },
                Some(t) => t,
            };
            if !mark_at(tokens, i, 2, Mark::In) {
                return Err(ParseError { index: i + 2, expected: Expected::In });
            }
            let iterable = match text_in(tokens, i, 3, Class::Paren) {
                None => {
                    return Err(ParseError { index: i + 3, expected: Expected::Condition });
                },
                Some(t) => t,
            };
            match parse_block_at(tokens, i + 4) {
                Err(e) => Err(e),
                Ok((body, j)) => Ok(
                    (Node::For { pattern: pattern.clone(), iterable: iterable.clone(), body }, j),
                ),
            }
        },
        TokenKind::Mark(Mark::Let) => {
            let pattern = match text_in(tokens, i, 1, Class::Pattern) {
                None => {
                    return Err(ParseError { index: i + 1, expected: Expected::Pattern });
                },
                Some(t) => t,
            };
            if !mark_at(tokens, i, 2, Mark::Eq) {
                return Err(ParseError { index: i + 2, expected: Expected::Assign });
            }
            let value = match text_in(tokens, i, 3, Class::Expr) {
                None => {
                    return Err(ParseError { index: i + 3, expected: Expected::Expression });
                },
                Some(t) => t,
            };
            if mark_at(tokens, i, 4, Mark::Semi) {
                Ok((Node::LetBinding { pattern: pattern.clone(), value: value.clone() }, i + 5))
            } else {
                Err(ParseError { index: i + 4, expected: Expected::Semi })
            }
        },
        _ => Err(ParseError { index: i, expected: Expected::Node }),
    }
}

/// Parses the tag whose `<` stands at `i`.
fn parse_element_at(tokens: &Vec<Token>, i: usize) -> (r: Result<(Node, usize), ParseError>)
    requires
        i < tokens.len(),
        is_mark(tokens_model(tokens@), i as int, Mark::Lt),
    ensures
        match r {
            Ok((node, j)) => parse_node(tokens_model(tokens@), i as int) == Ok::<
                (NodeModel, int),
                ParseError,
            >((node_model(node), j as int)) && i < j <= tokens.len(),
            Err(e) => parse_node(tokens_model(tokens@), i as int) == Err::<
                (NodeModel, int),
                ParseError,
            >(e),
        },
    decreases tokens.len() - i, 1nat,
{
    let name = match text_in(tokens, i, 1, Class::Name) {
        None => {
            return Err(ParseError { index: i + 1, expected: Expected::Name });
        },
        Some(t) => t,
    };
    match parse_attrs_at(tokens, i + 2) {
        Err(e) => Err(e),
        Ok((attributes, j)) => {
            if mark_at(tokens, j, 0, Mark::SlashGt) {
                let children: Vec<Node> = Vec::new();
                assert(nodes_model(children@) == Seq::<NodeModel>::empty());
                Ok(
                    (
                        Node::Element {
                            name: name.clone(),
                            attributes,
                            self_closing: true,
                            children,
                            close_name: String::new(),
                        },
                        j + 1,
                    ),
                )
            } else if mark_at(tokens, j, 0, Mark::Gt) {
                match parse_nodes_at(tokens, j + 1) {
                    Err(e) => Err(e),
                    Ok((children, k)) => match text_in(tokens, k, 0, Class::Close) {
                        Some(close_name) => Ok(
                            (
                                Node::Element {
                                    name: name.clone(),
                                    attributes,
                                    self_closing: false,
                                    children,
                                    close_name: close_name.clone(),
                                },
                                k + 1,
                            ),
                        ),
                        None => Err(ParseError { index: k, expected: Expected::ClosingTag }),
                    },
                }
            } else {
                Err(ParseError { index: j, expected: Expected::TagEnd })
            }
        },
    }
}

/// Parses the processing instruction whose `<?` stands at `i`.
fn parse_pi_at(tokens: &Vec<Token>, i: usize) -> (r: Result<(Node, usize), ParseError>)
    requires
        i < tokens.len(),
        is_mark(tokens_model(tokens@), i as int, Mark::PiOpen),
    ensures
        match r {
            Ok((node, j)) => parse_node(tokens_model(tokens@), i as int) == Ok::<
                (NodeModel, int),
                ParseError,
            >((node_model(node), j as int)) && i < j <= tokens.len(),
            Err(e) => parse_node(tokens_model(tokens@), i as int) == Err::<
                (NodeModel, int),
                ParseError,
            >(e),
        },
{
    let name = match text_in(tokens, i, 1, Class::Name) {
        None => {
            return Err(ParseError { index: i + 1, expected: Expected::Name });
        },
        Some(t) => t,
    };
    let mut t: Vec<Node> = Vec::new();
    t.push(Node::Literal(name.clone()));
    assert(nodes_model(t@) == seq![NodeModel::Literal(name@)]);
    match parse_pi_attrs_at(tokens, i + 2, &mut t) {
        Err(e) => Err(e),
        Ok(j) => {
            if mark_at(tokens, j, 0, Mark::PiClose) {
                Ok((Node::ProcessingInstruction(t), j + 1))
            } else {
                Err(ParseError { index: j, expected: Expected::PiEnd })
            }
        },
    }
}

/// A conditional that has been parsed up to an index, with `acc` before
/// its branches.
pub open spec fn after_branches(
    acc: Seq<BranchModel>,
    r: Result<((Seq<BranchModel>, Option<Seq<NodeModel>>), int), ParseError>,
) -> Result<((Seq<BranchModel>, Option<Seq<NodeModel>>), int), ParseError> {
    match r {
        Ok(((rest, else_body), j)) => Ok(((acc + rest, else_body), j)),
        Err(e) => Err(e),
    }
}

/// The model of an else body.
pub open spec fn else_model(b: Option<Vec<Node>>) -> Option<Seq<NodeModel>> {
    match b {
        Some(nodes) => Some(nodes_model(nodes@)),
        None => None,
    }
}

/// Parses the conditional whose `if` stands at `from`.
#[verifier::loop_isolation(false)]
fn parse_branches_at(tokens: &Vec<Token>, from: usize) -> (r: Result<
    (Vec<Branch>, Option<Vec<Node>>, usize),
    ParseError,
>)
    requires
        from < tokens.len(),
    ensures
        match r {
            Ok((branches, else_body, j)) => parse_branches(tokens_model(tokens@), from as int)
                == Ok::<((Seq<BranchModel>, Option<Seq<NodeModel>>), int), ParseError>(
                ((branches_model(branches@), else_model(else_body)), j as int),
            ) && from < j <= tokens.len(),
            Err(e) => parse_branches(tokens_model(tokens@), from as int) == Err::<
                ((Seq<BranchModel>, Option<Seq<NodeModel>>), int),
                ParseError,
            >(e),
        },
    decreases tokens.len() - from, 1nat,
{
    let ghost model = tokens_model(tokens@);
    let mut acc: Vec<Branch> = Vec::new();
    let mut i: usize = from;
    proof {
        match parse_branches(model, from as int) {
            Ok(((rest, _), _)) => {
                assert(Seq::<BranchModel>::empty() + rest == rest);
            },
            Err(_) => {},
        }
    }
    loop
        invariant
            from <= i < tokens.len(),
            parse_branches(model, from as int) == after_branches(
                branches_model(acc@),
                parse_branches(model, i as int),
            ),
        decreases tokens.len() - i,
    {
        let condition = match text_in(tokens, i, 1, Class::Paren) {
            None => {
                return Err(ParseError { index: i + 1, expected: Expected::Condition });
            },
            Some(t) => t,
        };
        match parse_block_at(tokens, i + 2) {
            Err(e) => {
                return Err(e);
            },
            Ok((body, k)) => {
                let ghost before = branches_model(acc@);
                let ghost one = BranchModel { condition: condition@, body: nodes_model(body@) };
                acc.push(Branch { condition: condition.clone(), body });
                assert(branches_model(acc@) == before + seq![one]);
                if !mark_at(tokens, k, 0, Mark::Else) {
                    return Ok((acc, None, k));
                } else if mark_at(tokens, k, 1, Mark::If) {
                    proof {
                        match parse_branches(model, k + 1) {
                            Ok(((rest, _), _)) => {
                                assert(before + (seq![one] + rest) == (before + seq![one]) + rest);
                            },
                            Err(_) => {},
                        }
                    }
                    i = k + 1;
                } else {
                    match parse_block_at(tokens, k + 1) {
                        Err(e) => {
                            return Err(e);
                        },
                        Ok((else_body, j)) => {
                            return Ok((acc, Some(else_body), j));
                        },
                    }
                }
            },
        }
    }
}

/// Parses the arms of a match from `from` on, up to and with `}`.
#[verifier::loop_isolation(false)]
fn parse_arms_at(tokens: &Vec<Token>, from: usize) -> (r: Result<(Vec<Arm>, usize), ParseError>)
    requires
        from <= tokens.len(),
    ensures
        match r {
            Ok((arms, j)) => parse_arms(tokens_model(tokens@), from as int) == Ok::<
                (Seq<ArmModel>, int),
                ParseError,
            >((arms_model(arms@), j as int)) && from < j <= tokens.len(),
            Err(e) => parse_arms(tokens_model(tokens@), from as int) == Err::<
                (Seq<ArmModel>, int),
                ParseError,
            >(e),
        },
    decreases tokens.len() - from, 1nat,
{
    let ghost model = tokens_model(tokens@);
    let mut acc: Vec<Arm> = Vec::new();
    let mut i: usize = from;
    proof {
        lemma_after_nothing(parse_arms(model, from as int));
    }
    loop
        invariant
            from <= i <= tokens.len(),
            parse_arms(model, from as int) == after(arms_model(acc@), parse_arms(model, i as int)),
        decreases tokens.len() - i,
    {
        if mark_at(tokens, i, 0, Mark::RBrace) {
            assert(arms_model(acc@) + Seq::<ArmModel>::empty() == arms_model(acc@));
            return Ok((acc, i + 1));
        }
        let pattern = match text_in(tokens, i, 0, Class::Pattern) {
            None => {
                return Err(ParseError { index: i, expected: Expected::Pattern });
            },
            Some(t) => t,
        };
        if !mark_at(tokens, i, 1, Mark::Arrow) {
            return Err(ParseError { index: i + 1, expected: Expected::Arrow });
        }
        match parse_block_at(tokens, i + 2) {
            Err(e) => {
                return Err(e);
            },
            Ok((body, k)) => {
                let ghost before = arms_model(acc@);
                let ghost one = ArmModel { pattern: pattern@, body: nodes_model(body@) };
                acc.push(Arm { pattern: pattern.clone(), body });
                proof {
                    assert(arms_model(acc@) == before + seq![one]);
                    lemma_after_after(before, seq![one], parse_arms(model, k as int));
                }
                i = k;
            },
        }
    }
}

/// Builds the document tree of a template from its tokens.
///
/// It succeeds where the tokens are those of a sequence of nodes and of
/// nothing more, and fails at the first token that does not fit, with that
/// token's index and what was expected there. There is no partial tree.
pub fn parse(tokens: &Vec<Token>) -> (r: Result<Vec<Node>, ParseError>)
    ensures
        match r {
            Ok(nodes) => parsed(tokens_model(tokens@)) == Ok::<Seq<NodeModel>, ParseError>(
                nodes_model(nodes@),
            ),
            Err(e) => parsed(tokens_model(tokens@)) == Err::<Seq<NodeModel>, ParseError>(e),
        },
{
    match parse_nodes_at(tokens, 0) {
        Err(e) => Err(e),
        Ok((nodes, j)) => {
            if j == tokens.len() {
                Ok(nodes)
            } else {
                Err(ParseError { index: j, expected: Expected::Node })
            }
        },
    }
}

} // verus!
