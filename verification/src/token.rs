//! Tokens: what the lexer hands to the parser.

use vstd::prelude::*;

verus! {

/// A token that is all punctuation or a keyword.
#[derive(Clone, Copy, Debug, PartialEq, Eq, Structural)]
pub enum Mark {
    /// `<`
    Lt,
    /// `>`
    Gt,
    /// `/>`
    SlashGt,
    /// `=`
    Eq,
    /// `[`
    LBracket,
    /// `,`
    Comma,
    /// `]`
    RBracket,
    /// `{` where a body begins
    LBrace,
    /// `}`
    RBrace,
    If,
    Else,
    Match,
    For,
    In,
    Let,
    /// `=>`
    Arrow,
    /// `;`
    Semi,
    /// `<!doctype`
    DoctypeOpen,
    /// `<?`
    PiOpen,
    /// `?>`
    PiClose,
    /// `<!--`
    CommentOpen,
    /// `-->`
    CommentClose,
    /// `<![CDATA[`
    CDataOpen,
    /// `]]>`
    CDataClose,
}

/// What the text of a token is.
#[derive(Clone, Copy, Debug, PartialEq, Eq, Structural)]
pub enum Class {
    /// The name in a closing tag `</name>`.
    Close,
    /// The name of a tag or of an attribute.
    Name,
    /// The content of a quoted literal, or a numeric literal as written.
    Literal,
    /// The expression between `(` and `)`.
    Paren,
    /// The condition after `:` in a conditional list.
    Guard,
    /// A pattern: of a match arm, of a loop, of a binding.
    Pattern,
    /// The expression of a binding, between `=` and `;`.
    Expr,
}

/// What a token is, and the text it carries.
#[derive(Debug, PartialEq, Eq)]
pub enum TokenKind {
    Mark(Mark),
    Text(Class, String),
    /// `{expr}` or `{expr;spec}`.
    Slot { expr: String, spec: Option<String> },
    /// A character that begins no token.
    Unknown(char),
}

/// A token and the index in the source of its first character.
#[derive(Debug, PartialEq, Eq)]
pub struct Token {
    pub kind: TokenKind,
    pub at: usize,
}

/// The kind of a token as the contracts see it.
pub enum KindModel {
    Mark(Mark),
    Text(Class, Seq<char>),
    Slot { expr: Seq<char>, spec: Option<Seq<char>> },
    Unknown(char),
}

/// A token as the contracts see it.
pub struct TokenModel {
    pub kind: KindModel,
    pub at: usize,
}

impl TokenKind {
    pub open spec fn model(self) -> KindModel {
        match self {
            TokenKind::Mark(m) => KindModel::Mark(m),
            TokenKind::Text(c, t) => KindModel::Text(c, t@),
            TokenKind::Slot { expr, spec } => KindModel::Slot {
                expr: expr@,
                spec: crate::tree::opt_text(spec),
            },
            TokenKind::Unknown(c) => KindModel::Unknown(c),
        }
    }
}

impl Token {
    pub open spec fn model(self) -> TokenModel {
        TokenModel { kind: self.kind.model(), at: self.at }
    }
}

/// The models of the tokens, in order.
pub open spec fn tokens_model(tokens: Seq<Token>) -> Seq<TokenModel> {
    tokens.map_values(|t: Token| t.model())
}

/// A punctuation or keyword token at `at`.
pub open spec fn mark(m: Mark, at: int) -> TokenModel {
    TokenModel { kind: KindModel::Mark(m), at: at as usize }
}

/// A token with a text at `at`.
pub open spec fn text(class: Class, t: Seq<char>, at: int) -> TokenModel {
    TokenModel { kind: KindModel::Text(class, t), at: at as usize }
}

} // verus!
