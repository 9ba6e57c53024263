//! The document tree: what a template is once it has been parsed.
//!
//! The tree holds structure and the texts of expressions, never a value. Each
//! type has a model over sequences, in which the contracts of the parser and
//! of the renderer are stated.

use vstd::prelude::*;

verus! {

/// One node of a document tree.
#[derive(Debug, PartialEq, Eq)]
pub enum Node {
    /// Fixed text.
    Literal(String),
    /// An expression, with the specifier its value is formatted under.
    Slot { expr: String, spec: Option<String> },
    /// A tag. The name of the closing tag is kept as written and is never
    /// held against `name`; a self-closing tag has no children.
    Element {
        name: String,
        attributes: Vec<Attribute>,
        self_closing: bool,
        children: Vec<Node>,
        close_name: String,
    },
    /// `<!doctype ` .. `>`
    Doctype(Vec<Node>),
    /// `<?` .. `?>`
    ProcessingInstruction(Vec<Node>),
    /// `<!-- ` .. ` -->`
    Comment(Vec<Node>),
    /// `<![CDATA[` .. `]]>`
    CData(Vec<Node>),
    /// The body of the first branch whose condition holds, else `else_body`.
    If { branches: Vec<Branch>, else_body: Option<Vec<Node>> },
    /// The body of the first arm whose pattern matches the scrutinee.
    Match { scrutinee: String, arms: Vec<Arm> },
    /// The body once for each item of the iterable.
    For { pattern: String, iterable: String, body: Vec<Node> },
    /// A name for the siblings that follow.
    LetBinding { pattern: String, value: String },
}

/// One branch of a conditional: the condition and what it guards.
#[derive(Debug, PartialEq, Eq)]
pub struct Branch {
    pub condition: String,
    pub body: Vec<Node>,
}

/// One arm of a match: the pattern and what is rendered where it matches.
#[derive(Debug, PartialEq, Eq)]
pub struct Arm {
    pub pattern: String,
    pub body: Vec<Node>,
}

/// One attribute of a tag.
#[derive(Debug, PartialEq, Eq)]
pub struct Attribute {
    pub name: String,
    pub value: AttrValue,
}

/// The value of an attribute.
#[derive(Debug, PartialEq, Eq)]
pub enum AttrValue {
    Static(String),
    Slot { expr: String, spec: Option<String> },
    /// Each literal whose condition holds, followed by one space.
    ConditionalList(Vec<Guarded>),
}

/// One entry of a conditional list: the literal and the condition it
/// is written under.
#[derive(Debug, PartialEq, Eq)]
pub struct Guarded {
    pub literal: String,
    pub condition: String,
}

/// A node as the contracts see it: texts as sequences of characters,
/// children as sequences of nodes.
pub enum NodeModel {
    Literal(Seq<char>),
    Slot { expr: Seq<char>, spec: Option<Seq<char>> },
    Element {
        name: Seq<char>,
        attributes: Seq<AttributeModel>,
        self_closing: bool,
        children: Seq<NodeModel>,
        close_name: Seq<char>,
    },
    Doctype(Seq<NodeModel>),
    ProcessingInstruction(Seq<NodeModel>),
    Comment(Seq<NodeModel>),
    CData(Seq<NodeModel>),
    If { branches: Seq<BranchModel>, else_body: Option<Seq<NodeModel>> },
    Match { scrutinee: Seq<char>, arms: Seq<ArmModel> },
    For { pattern: Seq<char>, iterable: Seq<char>, body: Seq<NodeModel> },
    LetBinding { pattern: Seq<char>, value: Seq<char> },
}

/// A branch as the contracts see it.
pub struct BranchModel {
    pub condition: Seq<char>,
    pub body: Seq<NodeModel>,
}

/// An arm as the contracts see it.
pub struct ArmModel {
    pub pattern: Seq<char>,
    pub body: Seq<NodeModel>,
}

/// An attribute as the contracts see it.
pub struct AttributeModel {
    pub name: Seq<char>,
    pub value: AttrValueModel,
}

/// The value of an attribute as the contracts see it.
pub enum AttrValueModel {
    Static(Seq<char>),
    Slot { expr: Seq<char>, spec: Option<Seq<char>> },
    ConditionalList(Seq<GuardedModel>),
}

/// An entry of a conditional list as the contracts see it.
pub struct GuardedModel {
    pub literal: Seq<char>,
    pub condition: Seq<char>,
}

/// The characters of an optional text.
pub open spec fn opt_text(s: Option<String>) -> Option<Seq<char>> {
    match s {
        Some(t) => Some(t@),
        None => None,
    }
}

pub open spec fn guarded_model(g: Guarded) -> GuardedModel {
    GuardedModel { literal: g.literal@, condition: g.condition@ }
}

pub open spec fn guardeds_model(entries: Seq<Guarded>) -> Seq<GuardedModel> {
    entries.map_values(|g: Guarded| guarded_model(g))
}

pub open spec fn attr_value_model(v: AttrValue) -> AttrValueModel {
    match v {
        AttrValue::Static(t) => AttrValueModel::Static(t@),
        AttrValue::Slot { expr, spec } => AttrValueModel::Slot { expr: expr@, spec: opt_text(spec) },
        AttrValue::ConditionalList(entries) => AttrValueModel::ConditionalList(
            guardeds_model(entries@),
        ),
    }
}

pub open spec fn attribute_model(a: Attribute) -> AttributeModel {
    AttributeModel { name: a.name@, value: attr_value_model(a.value) }
}

pub open spec fn attributes_model(attrs: Seq<Attribute>) -> Seq<AttributeModel> {
    attrs.map_values(|a: Attribute| attribute_model(a))
}

/// The model of a node.
pub open spec fn node_model(node: Node) -> NodeModel
    decreases node,
{
    match node {
        Node::Literal(t) => NodeModel::Literal(t@),
        Node::Slot { expr, spec } => NodeModel::Slot { expr: expr@, spec: opt_text(spec) },
        Node::Element { name, attributes, self_closing, children, close_name } => NodeModel::Element {
            name: name@,
            attributes: attributes_model(attributes@),
            self_closing,
            children: nodes_model(children@),
            close_name: close_name@,
        },
        Node::Doctype(t) => NodeModel::Doctype(nodes_model(t@)),
        Node::ProcessingInstruction(t) => NodeModel::ProcessingInstruction(nodes_model(t@)),
        Node::Comment(t) => NodeModel::Comment(nodes_model(t@)),
        Node::CData(t) => NodeModel::CData(nodes_model(t@)),
        Node::If { branches, else_body } => NodeModel::If {
            branches: branches_model(branches@),
            else_body: match else_body {
                Some(b) => Some(nodes_model(b@)),
                None => None,
            },
        },
        Node::Match { scrutinee, arms } => NodeModel::Match {
            scrutinee: scrutinee@,
            arms: arms_model(arms@),
        },
        Node::For { pattern, iterable, body } => NodeModel::For {
            pattern: pattern@,
            iterable: iterable@,
            body: nodes_model(body@),
        },
        Node::LetBinding { pattern, value } => NodeModel::LetBinding {
            pattern: pattern@,
            value: value@,
        },
    }
}

/// The models of the nodes, in order.
pub open spec fn nodes_model(nodes: Seq<Node>) -> Seq<NodeModel>
    decreases nodes,
{
    Seq::new(
        nodes.len(),
        |i: int|
            if 0 <= i < nodes.len() {
                node_model(nodes[i])
            } else {
                NodeModel::Literal(Seq::empty())
            },
    )
}

pub open spec fn branches_model(branches: Seq<Branch>) -> Seq<BranchModel>
    decreases branches,
{
    Seq::new(
        branches.len(),
        |i: int|
            if 0 <= i < branches.len() {
                BranchModel { condition: branches[i].condition@, body: nodes_model(branches[i].body@) }
            } else {
                BranchModel { condition: Seq::empty(), body: Seq::empty() }
            },
    )
}

pub open spec fn arms_model(arms: Seq<Arm>) -> Seq<ArmModel>
    decreases arms,
{
    Seq::new(
        arms.len(),
        |i: int|
            if 0 <= i < arms.len() {
                ArmModel { pattern: arms[i].pattern@, body: nodes_model(arms[i].body@) }
            } else {
                ArmModel { pattern: Seq::empty(), body: Seq::empty() }
            },
    )
}

} // verus!
