//! The lexer: from the characters of a template to its tokens.
//!
//! Expressions, conditions and patterns belong to the host: the lexer takes
//! each as raw text, up to the delimiter that ends it, and looks inside only
//! to skip quoted strings and nested brackets. What a brace or a word means
//! depends on where it stands, so the lexer keeps track of whether it is
//! inside a tag, and of which kind, whether a body is due, and which of the
//! open bodies hold match arms.

use vstd::prelude::*;
use crate::format::{at, is_digit};
use crate::text::{
    chars_of, is_space, lead, skip_spaces, space, text_of, trimmed, trimmed_text,
};
use crate::token::{
    mark, text, tokens_model, Class, KindModel, Mark, Token, TokenKind, TokenModel,
};

verus! {

/// Why a template has no tokens.
#[derive(Clone, Copy, Debug, PartialEq, Eq, Structural)]
pub enum LexError {
    /// The quoted literal that begins at `at` has no closing quote.
    UnterminatedLiteral { at: usize },
    /// The bracket that opens at `at` is never closed, or the condition
    /// that begins at `at` in a conditional list never ends.
    UnterminatedSlot { at: usize },
    /// The closing tag that begins at `at` holds more than a name.
    MalformedClosingTag { at: usize },
}

/// What the lexer expects of the next `{`.
#[derive(Clone, Copy, Debug, PartialEq, Eq, Structural)]
pub enum Pending {
    /// A slot.
    Nothing,
    /// The body of a branch, a loop or a match arm.
    Body,
    /// The scrutinee of a match comes first.
    MatchHead,
    /// The arms of a match.
    Arms,
}

/// Where the lexer stands.
pub struct LexState {
    /// Between the `<` of a tag and its `>`.
    pub in_tag: bool,
    /// The tag is a `<!doctype`, where a bare word is a literal.
    pub doctype: bool,
    pub pending: Pending,
    /// One entry for each open body, the innermost last: whether it holds
    /// match arms.
    pub blocks: Seq<bool>,
}

/// Where the lexer stands at the start of a template.
pub open spec fn initial() -> LexState {
    LexState { in_tag: false, doctype: false, pending: Pending::Nothing, blocks: Seq::empty() }
}

pub open spec fn is_letter(c: char) -> bool {
    'a' <= c <= 'z' || 'A' <= c <= 'Z'
}

/// A character that may begin a name.
pub open spec fn is_name_start(c: char) -> bool {
    is_letter(c) || c == '_'
}

/// A character that may stand in a name (`numeric` false) or in a numeric
/// literal (`numeric` true).
pub open spec fn is_word_char(c: char, numeric: bool) -> bool {
    is_letter(c) || is_digit(c) || c == '_' || c == '.' || (!numeric && (c == '-' || c == ':'))
}

/// The end of the run of word characters that starts at `i`.
pub open spec fn word_end(s: Seq<char>, i: int, numeric: bool) -> int
    decreases s.len() - i,
{
    if 0 <= i < s.len() && is_word_char(s[i], numeric) {
        word_end(s, i + 1, numeric)
    } else {
        i
    }
}

/// The index of the quote that closes a literal whose content starts at
/// `i`. A backslash takes the character after it along.
pub open spec fn string_end(s: Seq<char>, i: int) -> Option<int>
    decreases s.len() - i,
{
    if i < 0 || i >= s.len() {
        None
    } else if s[i] == '"' {
        Some(i)
    } else if s[i] == '\\' {
        if i + 1 < s.len() {
            string_end(s, i + 2)
        } else {
            None
        }
    } else {
        string_end(s, i + 1)
    }
}

/// The character that a backslash and `c` stand for.
pub open spec fn escape(c: char) -> char {
    if c == 'n' {
        '\n'
    } else if c == 't' {
        '\t'
    } else if c == 'r' {
        '\r'
    } else if c == '0' {
        '\0'
    } else {
        c
    }
}

/// The text that the content of a quoted literal in `[from, to)` stands for.
pub open spec fn unescaped(s: Seq<char>, from: int, to: int) -> Seq<char>
    decreases to - from,
{
    if from >= to || from < 0 || to > s.len() {
        Seq::empty()
    } else if s[from] == '\\' && from + 1 < to {
        seq![escape(s[from + 1])] + unescaped(s, from + 2, to)
    } else {
        seq![s[from]] + unescaped(s, from + 1, to)
    }
}

/// What ends a stretch of raw text.
#[derive(Clone, Copy, Debug, PartialEq, Eq, Structural)]
pub enum Stop {
    /// The character.
    Char(char),
    /// Either character.
    Either(char, char),
    /// `=>`
    Arrow,
    /// The word `in`, after whitespace and before whitespace, `(` or the end.
    In,
}

/// Whether the stretch of raw text that began at `start` ends at `p`.
pub open spec fn stops(s: Seq<char>, start: int, p: int, stop: Stop) -> bool {
    0 <= p < s.len() && match stop {
        Stop::Char(c) => s[p] == c,
        Stop::Either(a, b) => s[p] == a || s[p] == b,
        Stop::Arrow => s[p] == '=' && at(s, p + 1, '>'),
        Stop::In => s[p] == 'i' && at(s, p + 1, 'n') && start < p && is_space(s[p - 1]) && (p + 2
            >= s.len() || is_space(s[p + 2]) || s[p + 2] == '('),
    }
}

pub open spec fn is_opener(c: char) -> bool {
    c == '(' || c == '[' || c == '{'
}

pub open spec fn is_closer(c: char) -> bool {
    c == ')' || c == ']' || c == '}'
}

/// The first index at or after `p` where the raw text that began at `start`
/// ends: outside quoted strings, and outside brackets opened since `start`,
/// of which `depth` are open at `p`.
pub open spec fn find(s: Seq<char>, start: int, p: int, depth: nat, stop: Stop) -> Option<int>
    decreases s.len() - p,
{
    if p < 0 || p >= s.len() {
        None
    } else if depth == 0 && stops(s, start, p, stop) {
        Some(p)
    } else if s[p] == '"' {
        match string_end(s, p + 1) {
            Some(q) if p < q < s.len() => find(s, start, q + 1, depth, stop),
            _ => None,
        }
    } else if is_opener(s[p]) {
        find(s, start, p + 1, depth + 1, stop)
    } else if is_closer(s[p]) && depth > 0 {
        find(s, start, p + 1, (depth - 1) as nat, stop)
    } else {
        find(s, start, p + 1, depth, stop)
    }
}

/// What one step of the lexer does.
pub enum Step {
    /// The tokens it adds, where it goes on, and in which state.
    Emit(Seq<TokenModel>, int, LexState),
    Fail(LexError),
}

/// The token of the raw text in `[from, to)`: the text without the
/// whitespace around it, at the index where it begins.
pub open spec fn raw(class: Class, s: Seq<char>, from: int, to: int) -> TokenModel {
    text(class, trimmed(s, from, to), lead(s, from, to))
}

/// One token, and the state after it with nothing pending.
pub open spec fn one(token: TokenModel, next: int, st: LexState) -> Step {
    Step::Emit(seq![token], next, LexState { pending: Pending::Nothing, ..st })
}

/// The slot that opens at `p`: `{expr}` or `{expr;spec}`.
pub open spec fn slot_step(s: Seq<char>, p: int, st: LexState) -> Step {
    match find(s, p + 1, p + 1, 0, Stop::Either(';', '}')) {
        None => Step::Fail(LexError::UnterminatedSlot { at: p as usize }),
        Some(m) => if s[m] == '}' {
            one(
                TokenModel {
                    kind: KindModel::Slot { expr: trimmed(s, p + 1, m), spec: None },
                    at: p as usize,
                },
                m + 1,
                st,
            )
        } else {
            match find(s, m + 1, m + 1, 0, Stop::Char('}')) {
                None => Step::Fail(LexError::UnterminatedSlot { at: p as usize }),
                Some(q) => one(
                    TokenModel {
                        kind: KindModel::Slot {
                            expr: trimmed(s, p + 1, m),
                            spec: Some(trimmed(s, m + 1, q)),
                        },
                        at: p as usize,
                    },
                    q + 1,
                    st,
                ),
            }
        },
    }
}

/// The tokens that mean the same inside a tag and outside.
pub open spec fn common_step(s: Seq<char>, p: int, st: LexState) -> Step {
    let c = s[p];
    if c == '=' {
        one(mark(Mark::Eq, p), p + 1, st)
    } else if c == '"' {
        match string_end(s, p + 1) {
            None => Step::Fail(LexError::UnterminatedLiteral { at: p as usize }),
            Some(q) => one(text(Class::Literal, unescaped(s, p + 1, q), p), q + 1, st),
        }
    } else if is_digit(c) {
        one(text(Class::Literal, s.subrange(p, word_end(s, p, true)), p), word_end(s, p, true), st)
    } else if c == '{' {
        slot_step(s, p, st)
    } else if c == '[' {
        match find(s, p + 1, p + 1, 0, Stop::Char(']')) {
            None => Step::Fail(LexError::UnterminatedSlot { at: p as usize }),
            Some(_) => one(mark(Mark::LBracket, p), p + 1, st),
        }
    } else if c == ']' {
        if at(s, p + 1, ']') && at(s, p + 2, '>') {
            one(mark(Mark::CDataClose, p), p + 3, st)
        } else {
            one(mark(Mark::RBracket, p), p + 1, st)
        }
    } else if c == ',' {
        one(mark(Mark::Comma, p), p + 1, st)
    } else if c == ':' {
        match find(s, p + 1, p + 1, 0, Stop::Either(',', ']')) {
            None => Step::Fail(LexError::UnterminatedSlot { at: p as usize }),
            Some(q) => one(text(Class::Guard, trimmed(s, p + 1, q), p), q, st),
        }
    } else if is_name_start(c) {
        one(text(Class::Name, s.subrange(p, word_end(s, p, false)), p), word_end(s, p, false), st)
    } else {
        one(TokenModel { kind: KindModel::Unknown(c), at: p as usize }, p + 1, st)
    }
}

/// A step inside a tag.
pub open spec fn tag_step(s: Seq<char>, p: int, st: LexState) -> Step {
    let c = s[p];
    let out = LexState { in_tag: false, doctype: false, ..st };
    if c == '>' {
        one(mark(Mark::Gt, p), p + 1, out)
    } else if c == '/' && at(s, p + 1, '>') {
        one(mark(Mark::SlashGt, p), p + 2, out)
    } else if c == '?' && at(s, p + 1, '>') {
        one(mark(Mark::PiClose, p), p + 2, out)
    } else if st.doctype && is_name_start(c) {
        one(
            text(Class::Literal, s.subrange(p, word_end(s, p, false)), p),
            word_end(s, p, false),
            st,
        )
    } else {
        common_step(s, p, st)
    }
}

/// Whether `<!doctype` stands at `p`, and no name character after it.
pub open spec fn doctype_at(s: Seq<char>, p: int) -> bool {
    at(s, p, '<') && at(s, p + 1, '!') && at(s, p + 2, 'd') && at(s, p + 3, 'o') && at(s, p + 4, 'c')
        && at(s, p + 5, 't') && at(s, p + 6, 'y') && at(s, p + 7, 'p') && at(s, p + 8, 'e') && !(p
        + 9 < s.len() && is_word_char(s[p + 9], false))
}

/// Whether `<![CDATA[` stands at `p`.
pub open spec fn cdata_at(s: Seq<char>, p: int) -> bool {
    at(s, p, '<') && at(s, p + 1, '!') && at(s, p + 2, '[') && at(s, p + 3, 'C') && at(s, p + 4, 'D')
        && at(s, p + 5, 'A') && at(s, p + 6, 'T') && at(s, p + 7, 'A') && at(s, p + 8, '[')
}

/// A step at a `<` outside a tag.
pub open spec fn angle_step(s: Seq<char>, p: int, st: LexState) -> Step {
    let tag = LexState { in_tag: true, ..st };
    if at(s, p + 1, '/') {
        let a = lead(s, p + 2, s.len() as int);
        let e = word_end(s, a, false);
        let b = lead(s, e, s.len() as int);
        if e > a && at(s, b, '>') {
            one(text(Class::Close, s.subrange(a, e), p), b + 1, st)
        } else {
            Step::Fail(LexError::MalformedClosingTag { at: p as usize })
        }
    } else if at(s, p + 1, '!') && at(s, p + 2, '-') && at(s, p + 3, '-') {
        one(mark(Mark::CommentOpen, p), p + 4, st)
    } else if cdata_at(s, p) {
        one(mark(Mark::CDataOpen, p), p + 9, st)
    } else if doctype_at(s, p) {
        one(mark(Mark::DoctypeOpen, p), p + 9, LexState { doctype: true, ..tag })
    } else if at(s, p + 1, '?') {
        one(mark(Mark::PiOpen, p), p + 2, tag)
    } else {
        one(mark(Mark::Lt, p), p + 1, tag)
    }
}

/// Whether the characters of `s` in `[p, e)` are those of `a`, `b`, ...
pub open spec fn word2(s: Seq<char>, p: int, e: int, a: char, b: char) -> bool {
    e == p + 2 && at(s, p, a) && at(s, p + 1, b)
}

pub open spec fn word3(s: Seq<char>, p: int, e: int, a: char, b: char, c: char) -> bool {
    e == p + 3 && at(s, p, a) && at(s, p + 1, b) && at(s, p + 2, c)
}

pub open spec fn word4(s: Seq<char>, p: int, e: int, a: char, b: char, c: char, d: char) -> bool {
    e == p + 4 && at(s, p, a) && at(s, p + 1, b) && at(s, p + 2, c) && at(s, p + 3, d)
}

/// The head of a loop, from the end `e` of the word `for` that stands at
/// `p`: the pattern, up to the word `in`.
pub open spec fn for_step(s: Seq<char>, p: int, e: int, st: LexState) -> Step {
    let quiet = LexState { pending: Pending::Nothing, ..st };
    match find(s, e, e, 0, Stop::In) {
        Some(q) => Step::Emit(
            seq![mark(Mark::For, p), raw(Class::Pattern, s, e, q), mark(Mark::In, q)],
            q + 2,
            quiet,
        ),
        None => Step::Emit(
            seq![mark(Mark::For, p), raw(Class::Pattern, s, e, s.len() as int)],
            s.len() as int,
            quiet,
        ),
    }
}

/// A binding, from the end `e` of the word `let` that stands at `p`: the
/// pattern up to `=`, the expression up to `;`.
pub open spec fn let_step(s: Seq<char>, p: int, e: int, st: LexState) -> Step {
    let quiet = LexState { pending: Pending::Nothing, ..st };
    let end = s.len() as int;
    match find(s, e, e, 0, Stop::Char('=')) {
        None => Step::Emit(
            seq![mark(Mark::Let, p), raw(Class::Pattern, s, e, end)],
            end,
            quiet,
        ),
        Some(q) => match find(s, q + 1, q + 1, 0, Stop::Char(';')) {
            None => Step::Emit(
                seq![
                    mark(Mark::Let, p),
                    raw(Class::Pattern, s, e, q),
                    mark(Mark::Eq, q),
                    raw(Class::Expr, s, q + 1, end),
                ],
                end,
                quiet,
            ),
            Some(r) => Step::Emit(
                seq![
                    mark(Mark::Let, p),
                    raw(Class::Pattern, s, e, q),
                    mark(Mark::Eq, q),
                    raw(Class::Expr, s, q + 1, r),
                    mark(Mark::Semi, r),
                ],
                r + 1,
                quiet,
            ),
        },
    }
}

/// A step at a word outside a tag: a keyword, or a name.
pub open spec fn word_step(s: Seq<char>, p: int, st: LexState) -> Step {
    let e = word_end(s, p, false);
    if word2(s, p, e, 'i', 'f') {
        one(mark(Mark::If, p), e, st)
    } else if word4(s, p, e, 'e', 'l', 's', 'e') {
        Step::Emit(seq![mark(Mark::Else, p)], e, LexState { pending: Pending::Body, ..st })
    } else if e == p + 5 && word4(s, p, p + 4, 'm', 'a', 't', 'c') && at(s, p + 4, 'h') {
        Step::Emit(seq![mark(Mark::Match, p)], e, LexState { pending: Pending::MatchHead, ..st })
    } else if word3(s, p, e, 'f', 'o', 'r') {
        for_step(s, p, e, st)
    } else if word3(s, p, e, 'l', 'e', 't') {
        let_step(s, p, e, st)
    } else {
        one(text(Class::Name, s.subrange(p, e), p), e, st)
    }
}

/// The pattern of a match arm, up to `=>`.
pub open spec fn arm_step(s: Seq<char>, p: int, st: LexState) -> Step {
    match find(s, p, p, 0, Stop::Arrow) {
        Some(q) => Step::Emit(
            seq![text(Class::Pattern, trimmed(s, p, q), p), mark(Mark::Arrow, q)],
            q + 2,
            LexState { pending: Pending::Body, ..st },
        ),
        None => Step::Emit(
            seq![text(Class::Pattern, trimmed(s, p, s.len() as int), p)],
            s.len() as int,
            LexState { pending: Pending::Nothing, ..st },
        ),
    }
}

/// A step outside a tag.
pub open spec fn body_step(s: Seq<char>, p: int, st: LexState) -> Step {
    let c = s[p];
    if st.blocks.len() > 0 && st.blocks.last() && st.pending == Pending::Nothing && c != '}' {
        arm_step(s, p, st)
    } else if c == '<' {
        angle_step(s, p, st)
    } else if c == '-' && at(s, p + 1, '-') && at(s, p + 2, '>') {
        one(mark(Mark::CommentClose, p), p + 3, st)
    } else if c == '{' && (st.pending == Pending::Body || st.pending == Pending::Arms) {
        one(
            mark(Mark::LBrace, p),
            p + 1,
            LexState { blocks: st.blocks.push(st.pending == Pending::Arms), ..st },
        )
    } else if c == '}' {
        one(
            mark(Mark::RBrace, p),
            p + 1,
            LexState {
                blocks: if st.blocks.len() > 0 { st.blocks.drop_last() } else { st.blocks },
                ..st
            },
        )
    } else if c == '(' {
        match find(s, p + 1, p + 1, 0, Stop::Char(')')) {
            None => Step::Fail(LexError::UnterminatedSlot { at: p as usize }),
            Some(q) => Step::Emit(
                seq![text(Class::Paren, trimmed(s, p + 1, q), p)],
                q + 1,
                LexState {
                    pending: if st.pending == Pending::MatchHead {
                        Pending::Arms
                    } else {
                        Pending::Body
                    },
                    ..st
                },
            ),
        }
    } else if is_name_start(c) {
        word_step(s, p, st)
    } else {
        common_step(s, p, st)
    }
}

/// What the lexer does at `p`, the index of a character that is no
/// whitespace.
pub open spec fn step(s: Seq<char>, p: int, st: LexState) -> Step {
    if st.in_tag {
        tag_step(s, p, st)
    } else {
        body_step(s, p, st)
    }
}

/// The tokens of `s` from `pos` on, or the first error.
pub open spec fn lex_from(s: Seq<char>, pos: int, st: LexState) -> Result<Seq<TokenModel>, LexError>
    decreases s.len() - pos,
{
    let p = lead(s, pos, s.len() as int);
    if pos < 0 || p >= s.len() || p < pos {
        Ok(Seq::empty())
    } else {
        match step(s, p, st) {
            Step::Fail(e) => Err(e),
            Step::Emit(tokens, next, then) => if next <= p || next > s.len() {
                Ok(tokens)
            } else {
                match lex_from(s, next, then) {
                    Ok(rest) => Ok(tokens + rest),
                    Err(e) => Err(e),
                }
            },
        }
    }
}

/// The tokens of a template, or the first error in it.
pub open spec fn lexed(s: Seq<char>) -> Result<Seq<TokenModel>, LexError> {
    lex_from(s, 0, initial())
}

/// Where the lexer stands, as it runs.
pub struct Mode {
    pub in_tag: bool,
    pub doctype: bool,
    pub pending: Pending,
    pub blocks: Vec<bool>,
}

impl Mode {
    pub open spec fn view(&self) -> LexState {
        LexState {
            in_tag: self.in_tag,
            doctype: self.doctype,
            pending: self.pending,
            blocks: self.blocks@,
        }
    }
}

/// Whether the result `r` of a step of the lexer at `p`, the tokens it
/// added and the state it left are what `step` describes.
pub open spec fn stepped(
    step: Step,
    r: Result<usize, LexError>,
    p: int,
    len: int,
    before: Seq<Token>,
    after: Seq<Token>,
    state: LexState,
) -> bool {
    match step {
        Step::Emit(tokens, next, then) => r == Ok::<usize, LexError>(next as usize) && p < next
            <= len && tokens_model(after) == tokens_model(before) + tokens && state == then,
        Step::Fail(e) => r == Err::<usize, LexError>(e),
    }
}

fn letter(c: char) -> (r: bool)
    ensures
        r == is_letter(c),
{
    ('a' <= c && c <= 'z') || ('A' <= c && c <= 'Z')
}

fn digit(c: char) -> (r: bool)
    ensures
        r == is_digit(c),
{
    '0' <= c && c <= '9'
}

fn word_char(c: char, numeric: bool) -> (r: bool)
    ensures
        r == is_word_char(c, numeric),
{
    letter(c) || digit(c) || c == '_' || c == '.' || (!numeric && (c == '-' || c == ':'))
}

/// The character at `p`.
fn char_at(chars: &Vec<char>, p: usize) -> (c: char)
    requires
        p < chars.len(),
    ensures
        c == chars@[p as int],
{
    chars[p]
}

/// Whether the character `c` stands `k` places after `p`.
fn has(chars: &Vec<char>, p: usize, k: usize, c: char) -> (r: bool)
    requires
        p <= chars.len(),
    ensures
        r == at(chars@, p + k, c),
{
    k < chars.len() - p && chars[p + k] == c
}

fn end_of_word(chars: &Vec<char>, from: usize, numeric: bool) -> (r: usize)
    requires
        from <= chars.len(),
    ensures
        r == word_end(chars@, from as int, numeric),
        from <= r <= chars.len(),
        from < chars.len() && is_word_char(chars@[from as int], numeric) ==> from < r,
{
    let mut i: usize = from;
    while i < chars.len() && word_char(chars[i], numeric)
        invariant
            from <= i <= chars.len(),
            word_end(chars@, from as int, numeric) == word_end(chars@, i as int, numeric),
            from < chars.len() && is_word_char(chars@[from as int], numeric) && i == from ==> i
                < chars.len() && is_word_char(chars@[i as int], numeric),
        decreases chars.len() - i,
    {
        i += 1;
    }
    i
}

fn end_of_string(chars: &Vec<char>, from: usize) -> (r: Option<usize>)
    requires
        from <= chars.len(),
    ensures
        match r {
            Some(q) => string_end(chars@, from as int) == Some(q as int) && from <= q
                < chars.len(),
            None => string_end(chars@, from as int) is None,
        },
{
    let mut i: usize = from;
    while i < chars.len()
        invariant
            from <= i <= chars.len(),
            string_end(chars@, from as int) == string_end(chars@, i as int),
        decreases chars.len() - i,
    {
        let c = chars[i];
        if c == '"' {
            return Some(i);
        }
        if c == '\\' {
            if chars.len() - i < 2 {
                return None;
            }
            i += 2;
        } else {
            i += 1;
        }
    }
    None
}

fn escaped(c: char) -> (r: char)
    ensures
        r == escape(c),
{
    if c == 'n' {
        '\n'
    } else if c == 't' {
        '\t'
    } else if c == 'r' {
        '\r'
    } else if c == '0' {
        '\0'
    } else {
        c
    }
}

/// The text that the content of a quoted literal in `[from, to)` stands for.
fn unescape(chars: &Vec<char>, from: usize, to: usize) -> (r: String)
    requires
        from <= to <= chars.len(),
    ensures
        r@ == unescaped(chars@, from as int, to as int),
{
    let mut out = String::new();
    let mut i: usize = from;
    assert(out@ + unescaped(chars@, from as int, to as int) == unescaped(
        chars@,
        from as int,
        to as int,
    ));
    while i < to
        invariant
            from <= i <= to <= chars.len(),
            unescaped(chars@, from as int, to as int) == out@ + unescaped(
                chars@,
                i as int,
                to as int,
            ),
        decreases to - i,
    {
        let ghost before = out@;
        if chars[i] == '\\' && to - i >= 2 {
            let c = escaped(chars[i + 1]);
            out.push(c);
            assert(before + (seq![c] + unescaped(chars@, i + 2, to as int)) == before.push(c)
                + unescaped(chars@, i + 2, to as int));
            i += 2;
        } else {
            let c = chars[i];
            out.push(c);
            assert(before + (seq![c] + unescaped(chars@, i + 1, to as int)) == before.push(c)
                + unescaped(chars@, i + 1, to as int));
            i += 1;
        }
    }
    assert(out@ + Seq::<char>::empty() == out@);
    out
}

fn stops_at(chars: &Vec<char>, start: usize, p: usize, stop: Stop) -> (r: bool)
    requires
        start <= p < chars.len(),
    ensures
        r == stops(chars@, start as int, p as int, stop),
{
    let c = chars[p];
    match stop {
        Stop::Char(x) => c == x,
        Stop::Either(a, b) => c == a || c == b,
        Stop::Arrow => c == '=' && has(chars, p, 1, '>'),
        Stop::In => c == 'i' && has(chars, p, 1, 'n') && start < p && space(chars[p - 1]) && (
        chars.len() - p <= 2 || space(chars[p + 2]) || chars[p + 2] == '('),
    }
}

/// Where the raw text that begins at `start` ends.
fn find_stop(chars: &Vec<char>, start: usize, stop: Stop) -> (r: Option<usize>)
    requires
        start <= chars.len(),
    ensures
        match r {
            Some(q) => find(chars@, start as int, start as int, 0, stop) == Some(q as int)
                && start <= q < chars.len() && stops(chars@, start as int, q as int, stop),
            None => find(chars@, start as int, start as int, 0, stop) is None,
        },
{
    let mut p: usize = start;
    let mut depth: usize = 0;
    while p < chars.len()
        invariant
            start <= p <= chars.len(),
            depth <= p - start,
            find(chars@, start as int, start as int, 0, stop) == find(
                chars@,
                start as int,
                p as int,
                depth as nat,
                stop,
            ),
        decreases chars.len() - p,
    {
        let c = chars[p];
        if depth == 0 && stops_at(chars, start, p, stop) {
            return Some(p);
        }
        if c == '"' {
            match end_of_string(chars, p + 1) {
                Some(q) => {
                    p = q + 1;
                },
                None => {
                    return None;
                },
            }
        } else if c == '(' || c == '[' || c == '{' {
            depth += 1;
            p += 1;
        } else if (c == ')' || c == ']' || c == '}') && depth > 0 {
            depth -= 1;
            p += 1;
        } else {
            p += 1;
        }
    }
    None
}

/// Adds a token to `out`.
fn push_token(out: &mut Vec<Token>, kind: TokenKind, at: usize)
    ensures
        final(out)@ == old(out)@.push(Token { kind, at }),
        tokens_model(final(out)@) == tokens_model(old(out)@).push(
            TokenModel { kind: kind.model(), at },
        ),
{
    out.push(Token { kind, at });
    assert(tokens_model(out@) == tokens_model(old(out)@).push(
        TokenModel { kind: kind.model(), at },
    ));
}

/// Adds the token of the raw text in `[from, to)` to `out`.
fn push_raw(out: &mut Vec<Token>, chars: &Vec<char>, class: Class, from: usize, to: usize)
    requires
        from <= to <= chars.len(),
    ensures
        tokens_model(final(out)@) == tokens_model(old(out)@).push(
            raw(class, chars@, from as int, to as int),
        ),
{
    let at: usize = skip_spaces(chars, from, to);
    let t = trimmed_text(chars, from, to);
    push_token(out, TokenKind::Text(class, t), at);
}

/// Adds one token and leaves nothing pending.
fn emit_one(
    st: &mut Mode,
    out: &mut Vec<Token>,
    kind: TokenKind,
    at: usize,
    next: usize,
) -> (r: Result<usize, LexError>)
    ensures
        r == Ok::<usize, LexError>(next),
        tokens_model(final(out)@) == tokens_model(old(out)@) + seq![
            TokenModel { kind: kind.model(), at },
        ],
        final(st)@ == (LexState { pending: Pending::Nothing, ..old(st)@ }),
{
    push_token(out, kind, at);
    st.pending = Pending::Nothing;
    assert(tokens_model(old(out)@).push(TokenModel { kind: kind.model(), at }) == tokens_model(
        old(out)@,
    ) + seq![TokenModel { kind: kind.model(), at }]);
    Ok(next)
}

fn lex_slot(chars: &Vec<char>, p: usize, st: &mut Mode, out: &mut Vec<Token>) -> (r: Result<
    usize,
    LexError,
>)
    requires
        p < chars.len(),
    ensures
        stepped(
            slot_step(chars@, p as int, old(st)@),
            r,
            p as int,
            chars@.len() as int,
            old(out)@,
            final(out)@,
            final(st)@,
        ),
{
    match find_stop(chars, p + 1, Stop::Either(';', '}')) {
        None => Err(LexError::UnterminatedSlot { at: p }),
        Some(m) => {
            if chars[m] == '}' {
                let expr = trimmed_text(chars, p + 1, m);
                emit_one(st, out, TokenKind::Slot { expr, spec: None }, p, m + 1)
            } else {
                match find_stop(chars, m + 1, Stop::Char('}')) {
                    None => Err(LexError::UnterminatedSlot { at: p }),
                    Some(q) => {
                        let expr = trimmed_text(chars, p + 1, m);
                        let spec = trimmed_text(chars, m + 1, q);
                        emit_one(st, out, TokenKind::Slot { expr, spec: Some(spec) }, p, q + 1)
                    },
                }
            }
        },
    }
}

fn lex_common(chars: &Vec<char>, p: usize, st: &mut Mode, out: &mut Vec<Token>) -> (r: Result<
    usize,
    LexError,
>)
    requires
        p < chars.len(),
    ensures
        stepped(
            common_step(chars@, p as int, old(st)@),
            r,
            p as int,
            chars@.len() as int,
            old(out)@,
            final(out)@,
            final(st)@,
        ),
{
    let c = char_at(chars, p);
    if c == '=' {
        emit_one(st, out, TokenKind::Mark(Mark::Eq), p, p + 1)
    } else if c == '"' {
        match end_of_string(chars, p + 1) {
            None => Err(LexError::UnterminatedLiteral { at: p }),
            Some(q) => {
                let t = unescape(chars, p + 1, q);
                emit_one(st, out, TokenKind::Text(Class::Literal, t), p, q + 1)
            },
        }
    } else if digit(c) {
        let e: usize = end_of_word(chars, p, true);
        let t = text_of(chars, p, e);
        emit_one(st, out, TokenKind::Text(Class::Literal, t), p, e)
    } else if c == '{' {
        lex_slot(chars, p, st, out)
    } else if c == '[' {
        match find_stop(chars, p + 1, Stop::Char(']')) {
            None => Err(LexError::UnterminatedSlot { at: p }),
            Some(_) => emit_one(st, out, TokenKind::Mark(Mark::LBracket), p, p + 1),
        }
    } else if c == ']' {
        if has(chars, p, 1, ']') && has(chars, p, 2, '>') {
            emit_one(st, out, TokenKind::Mark(Mark::CDataClose), p, p + 3)
        } else {
            emit_one(st, out, TokenKind::Mark(Mark::RBracket), p, p + 1)
        }
    } else if c == ',' {
        emit_one(st, out, TokenKind::Mark(Mark::Comma), p, p + 1)
    } else if c == ':' {
        match find_stop(chars, p + 1, Stop::Either(',', ']')) {
            None => Err(LexError::UnterminatedSlot { at: p }),
            Some(q) => {
                let t = trimmed_text(chars, p + 1, q);
                emit_one(st, out, TokenKind::Text(Class::Guard, t), p, q)
            },
        }
    } else if letter(c) || c == '_' {
        let e: usize = end_of_word(chars, p, false);
        let t = text_of(chars, p, e);
        emit_one(st, out, TokenKind::Text(Class::Name, t), p, e)
    } else {
        emit_one(st, out, TokenKind::Unknown(c), p, p + 1)
    }
}

fn lex_tag(chars: &Vec<char>, p: usize, st: &mut Mode, out: &mut Vec<Token>) -> (r: Result<
    usize,
    LexError,
>)
    requires
        p < chars.len(),
    ensures
        stepped(
            tag_step(chars@, p as int, old(st)@),
            r,
            p as int,
            chars@.len() as int,
            old(out)@,
            final(out)@,
            final(st)@,
        ),
{
    let c = chars[p];
    if c == '>' {
        st.in_tag = false;
        st.doctype = false;
        emit_one(st, out, TokenKind::Mark(Mark::Gt), p, p + 1)
    } else if c == '/' && has(chars, p, 1, '>') {
        st.in_tag = false;
        st.doctype = false;
        emit_one(st, out, TokenKind::Mark(Mark::SlashGt), p, p + 2)
    } else if c == '?' && has(chars, p, 1, '>') {
        st.in_tag = false;
        st.doctype = false;
        emit_one(st, out, TokenKind::Mark(Mark::PiClose), p, p + 2)
    } else if st.doctype && (letter(c) || c == '_') {
        let e: usize = end_of_word(chars, p, false);
        let t = text_of(chars, p, e);
        emit_one(st, out, TokenKind::Text(Class::Literal, t), p, e)
    } else {
        lex_common(chars, p, st, out)
    }
}

fn has_doctype(chars: &Vec<char>, p: usize) -> (r: bool)
    requires
        p < chars.len(),
    ensures
        r == doctype_at(chars@, p as int),
{
    has(chars, p, 0, '<') && has(chars, p, 1, '!') && has(chars, p, 2, 'd') && has(chars, p, 3, 'o')
        && has(chars, p, 4, 'c') && has(chars, p, 5, 't') && has(chars, p, 6, 'y') && has(
        chars,
        p,
        7,
        'p',
    ) && has(chars, p, 8, 'e') && !(chars.len() - p > 9 && word_char(chars[p + 9], false))
}

fn has_cdata(chars: &Vec<char>, p: usize) -> (r: bool)
    requires
        p < chars.len(),
    ensures
        r == cdata_at(chars@, p as int),
{
    has(chars, p, 0, '<') && has(chars, p, 1, '!') && has(chars, p, 2, '[') && has(chars, p, 3, 'C')
        && has(chars, p, 4, 'D') && has(chars, p, 5, 'A') && has(chars, p, 6, 'T') && has(
        chars,
        p,
        7,
        'A',
    ) && has(chars, p, 8, '[')
}

fn lex_angle(chars: &Vec<char>, p: usize, st: &mut Mode, out: &mut Vec<Token>) -> (r: Result<
    usize,
    LexError,
>)
    requires
        p < chars.len(),
    ensures
        stepped(
            angle_step(chars@, p as int, old(st)@),
            r,
            p as int,
            chars@.len() as int,
            old(out)@,
            final(out)@,
            final(st)@,
        ),
{
    let n: usize = chars.len();
    if has(chars, p, 1, '/') {
        let a: usize = skip_spaces(chars, p + 2, n);
        let e: usize = end_of_word(chars, a, false);
        let b: usize = skip_spaces(chars, e, n);
        if e > a && has(chars, b, 0, '>') {
            let t = text_of(chars, a, e);
            emit_one(st, out, TokenKind::Text(Class::Close, t), p, b + 1)
        } else {
            Err(LexError::MalformedClosingTag { at: p })
        }
    } else if has(chars, p, 1, '!') && has(chars, p, 2, '-') && has(chars, p, 3, '-') {
        emit_one(st, out, TokenKind::Mark(Mark::CommentOpen), p, p + 4)
    } else if has_cdata(chars, p) {
        emit_one(st, out, TokenKind::Mark(Mark::CDataOpen), p, p + 9)
    } else if has_doctype(chars, p) {
        st.in_tag = true;
        st.doctype = true;
        emit_one(st, out, TokenKind::Mark(Mark::DoctypeOpen), p, p + 9)
    } else if has(chars, p, 1, '?') {
        st.in_tag = true;
        emit_one(st, out, TokenKind::Mark(Mark::PiOpen), p, p + 2)
    } else {
        st.in_tag = true;
        emit_one(st, out, TokenKind::Mark(Mark::Lt), p, p + 1)
    }
}

fn lex_for(chars: &Vec<char>, p: usize, e: usize, st: &mut Mode, out: &mut Vec<Token>) -> (r: Result<
    usize,
    LexError,
>)
    requires
        p < e <= chars.len(),
    ensures
        stepped(
            for_step(chars@, p as int, e as int, old(st)@),
            r,
            p as int,
            chars@.len() as int,
            old(out)@,
            final(out)@,
            final(st)@,
        ),
{
    let n: usize = chars.len();
    let ghost before = tokens_model(out@);
    st.pending = Pending::Nothing;
    push_token(out, TokenKind::Mark(Mark::For), p);
    match find_stop(chars, e, Stop::In) {
        Some(q) => {
            push_raw(out, chars, Class::Pattern, e, q);
            push_token(out, TokenKind::Mark(Mark::In), q);
            assert(tokens_model(out@) == before + seq![
                mark(Mark::For, p as int),
                raw(Class::Pattern, chars@, e as int, q as int),
                mark(Mark::In, q as int),
            ]);
            Ok(q + 2)
        },
        None => {
            push_raw(out, chars, Class::Pattern, e, n);
            assert(tokens_model(out@) == before + seq![
                mark(Mark::For, p as int),
                raw(Class::Pattern, chars@, e as int, n as int),
            ]);
            Ok(n)
        },
    }
}

fn lex_let(chars: &Vec<char>, p: usize, e: usize, st: &mut Mode, out: &mut Vec<Token>) -> (r: Result<
    usize,
    LexError,
>)
    requires
        p < e <= chars.len(),
    ensures
        stepped(
            let_step(chars@, p as int, e as int, old(st)@),
            r,
            p as int,
            chars@.len() as int,
            old(out)@,
            final(out)@,
            final(st)@,
        ),
{
    let n: usize = chars.len();
    let ghost before = tokens_model(out@);
    st.pending = Pending::Nothing;
    push_token(out, TokenKind::Mark(Mark::Let), p);
    match find_stop(chars, e, Stop::Char('=')) {
        None => {
            push_raw(out, chars, Class::Pattern, e, n);
            assert(tokens_model(out@) == before + seq![
                mark(Mark::Let, p as int),
                raw(Class::Pattern, chars@, e as int, n as int),
            ]);
            Ok(n)
        },
        Some(q) => {
            push_raw(out, chars, Class::Pattern, e, q);
            push_token(out, TokenKind::Mark(Mark::Eq), q);
            match find_stop(chars, q + 1, Stop::Char(';')) {
                None => {
                    push_raw(out, chars, Class::Expr, q + 1, n);
                    assert(tokens_model(out@) == before + seq![
                        mark(Mark::Let, p as int),
                        raw(Class::Pattern, chars@, e as int, q as int),
                        mark(Mark::Eq, q as int),
                        raw(Class::Expr, chars@, q + 1, n as int),
                    ]);
                    Ok(n)
                },
                Some(r) => {
                    push_raw(out, chars, Class::Expr, q + 1, r);
                    push_token(out, TokenKind::Mark(Mark::Semi), r);
                    assert(tokens_model(out@) == before + seq![
                        mark(Mark::Let, p as int),
                        raw(Class::Pattern, chars@, e as int, q as int),
                        mark(Mark::Eq, q as int),
                        raw(Class::Expr, chars@, q + 1, r as int),
                        mark(Mark::Semi, r as int),
                    ]);
                    Ok(r + 1)
                },
            }
        },
    }
}

fn lex_word(chars: &Vec<char>, p: usize, st: &mut Mode, out: &mut Vec<Token>) -> (r: Result<
    usize,
    LexError,
>)
    requires
        p < chars.len(),
        is_name_start(chars@[p as int]),
    ensures
        stepped(
            word_step(chars@, p as int, old(st)@),
            r,
            p as int,
            chars@.len() as int,
            old(out)@,
            final(out)@,
            final(st)@,
        ),
{
    let e: usize = end_of_word(chars, p, false);
    let ghost before = tokens_model(out@);
    let size: usize = e - p;
    if size == 2 && has(chars, p, 0, 'i') && has(chars, p, 1, 'f') {
        emit_one(st, out, TokenKind::Mark(Mark::If), p, e)
    } else if size == 4 && has(chars, p, 0, 'e') && has(chars, p, 1, 'l') && has(chars, p, 2, 's')
        && has(chars, p, 3, 'e') {
        push_token(out, TokenKind::Mark(Mark::Else), p);
        st.pending = Pending::Body;
        assert(tokens_model(out@) == before + seq![mark(Mark::Else, p as int)]);
        Ok(e)
    } else if size == 5 && has(chars, p, 0, 'm') && has(chars, p, 1, 'a') && has(chars, p, 2, 't')
        && has(chars, p, 3, 'c') && has(chars, p, 4, 'h') {
        push_token(out, TokenKind::Mark(Mark::Match), p);
        st.pending = Pending::MatchHead;
        assert(tokens_model(out@) == before + seq![mark(Mark::Match, p as int)]);
        Ok(e)
    } else if size == 3 && has(chars, p, 0, 'f') && has(chars, p, 1, 'o') && has(chars, p, 2, 'r') {
        lex_for(chars, p, e, st, out)
    } else if size == 3 && has(chars, p, 0, 'l') && has(chars, p, 1, 'e') && has(chars, p, 2, 't') {
        lex_let(chars, p, e, st, out)
    } else {
        let t = text_of(chars, p, e);
        emit_one(st, out, TokenKind::Text(Class::Name, t), p, e)
    }
}

fn lex_arm(chars: &Vec<char>, p: usize, st: &mut Mode, out: &mut Vec<Token>) -> (r: Result<
    usize,
    LexError,
>)
    requires
        p < chars.len(),
    ensures
        stepped(
            arm_step(chars@, p as int, old(st)@),
            r,
            p as int,
            chars@.len() as int,
            old(out)@,
            final(out)@,
            final(st)@,
        ),
{
    let n: usize = chars.len();
    let ghost before = tokens_model(out@);
    match find_stop(chars, p, Stop::Arrow) {
        Some(q) => {
            let t = trimmed_text(chars, p, q);
            push_token(out, TokenKind::Text(Class::Pattern, t), p);
            push_token(out, TokenKind::Mark(Mark::Arrow), q);
            st.pending = Pending::Body;
            assert(tokens_model(out@) == before + seq![
                text(Class::Pattern, trimmed(chars@, p as int, q as int), p as int),
                mark(Mark::Arrow, q as int),
            ]);
            Ok(q + 2)
        },
        None => {
            let t = trimmed_text(chars, p, n);
            push_token(out, TokenKind::Text(Class::Pattern, t), p);
            st.pending = Pending::Nothing;
            assert(tokens_model(out@) == before + seq![
                text(Class::Pattern, trimmed(chars@, p as int, n as int), p as int),
            ]);
            Ok(n)
        },
    }
}

fn lex_body(chars: &Vec<char>, p: usize, st: &mut Mode, out: &mut Vec<Token>) -> (r: Result<
    usize,
    LexError,
>)
    requires
        p < chars.len(),
    ensures
        stepped(
            body_step(chars@, p as int, old(st)@),
            r,
            p as int,
            chars@.len() as int,
            old(out)@,
            final(out)@,
            final(st)@,
        ),
{
    let c = chars[p];
    let ghost before = tokens_model(out@);
    let depth: usize = st.blocks.len();
    let pending_nothing: bool = match st.pending {
        Pending::Nothing => true,
        _ => false,
    };
    let pending_arms: bool = match st.pending {
        Pending::Arms => true,
        _ => false,
    };
    let pending_body: bool = match st.pending {
        Pending::Body => true,
        _ => false,
    };
    let pending_head: bool = match st.pending {
        Pending::MatchHead => true,
        _ => false,
    };
    if depth > 0 && st.blocks[depth - 1] && pending_nothing && c != '}' {
        lex_arm(chars, p, st, out)
    } else if c == '<' {
        lex_angle(chars, p, st, out)
    } else if c == '-' && has(chars, p, 1, '-') && has(chars, p, 2, '>') {
        emit_one(st, out, TokenKind::Mark(Mark::CommentClose), p, p + 3)
    } else if c == '{' && (pending_body || pending_arms) {
        st.blocks.push(pending_arms);
        emit_one(st, out, TokenKind::Mark(Mark::LBrace), p, p + 1)
    } else if c == '}' {
        if depth > 0 {
            st.blocks.pop();
        }
        emit_one(st, out, TokenKind::Mark(Mark::RBrace), p, p + 1)
    } else if c == '(' {
        match find_stop(chars, p + 1, Stop::Char(')')) {
            None => Err(LexError::UnterminatedSlot { at: p }),
            Some(q) => {
                let t = trimmed_text(chars, p + 1, q);
                push_token(out, TokenKind::Text(Class::Paren, t), p);
                st.pending = if pending_head {
                    Pending::Arms
                } else {
                    Pending::Body
                };
                assert(tokens_model(out@) == before + seq![
                    text(Class::Paren, trimmed(chars@, p + 1, q as int), p as int),
                ]);
                Ok(q + 1)
            },
        }
    } else if letter(c) || c == '_' {
        lex_word(chars, p, st, out)
    } else {
        lex_common(chars, p, st, out)
    }
}

/// What a result is once `tokens` stand before it.
pub open spec fn after(tokens: Seq<TokenModel>, r: Result<Seq<TokenModel>, LexError>) -> Result<
    Seq<TokenModel>,
    LexError,
> {
    match r {
        Ok(rest) => Ok(tokens + rest),
        Err(e) => Err(e),
    }
}

/// Turns the text of a template into its tokens.
///
/// It fails on a quoted literal without its closing quote, on a bracket
/// that is never closed, and on a closing tag that holds more than a name;
/// on nothing else.
pub fn lex(src: &str) -> (r: Result<Vec<Token>, LexError>)
    ensures
        match r {
            Ok(tokens) => lexed(src@) == Ok::<Seq<TokenModel>, LexError>(tokens_model(tokens@)),
            Err(e) => lexed(src@) == Err::<Seq<TokenModel>, LexError>(e),
        },
{
    let chars = chars_of(src);
    let n: usize = chars.len();
    let mut st = Mode {
        in_tag: false,
        doctype: false,
        pending: Pending::Nothing,
        blocks: Vec::new(),
    };
    let mut out: Vec<Token> = Vec::new();
    let mut pos: usize = 0;
    assert(tokens_model(out@) + Seq::<TokenModel>::empty() == tokens_model(out@));
    assert(after(tokens_model(out@), lex_from(chars@, 0, initial())) == lexed(src@)) by {
        match lex_from(chars@, 0, initial()) {
            Ok(rest) => {
                assert(tokens_model(out@) + rest == rest);
            },
            Err(_) => {},
        }
    }
    loop
        invariant
            pos <= n == chars.len(),
            chars@ == src@,
            lexed(src@) == after(tokens_model(out@), lex_from(chars@, pos as int, st@)),
        decreases n - pos,
    {
        let p: usize = skip_spaces(&chars, pos, n);
        if p >= n {
            assert(tokens_model(out@) + Seq::<TokenModel>::empty() == tokens_model(out@));
            return Ok(out);
        }
        let ghost before = tokens_model(out@);
        let ghost state = st@;
        let r = if st.in_tag {
            lex_tag(&chars, p, &mut st, &mut out)
        } else {
            lex_body(&chars, p, &mut st, &mut out)
        };
        match r {
            Err(e) => {
                return Err(e);
            },
            Ok(next) => {
                proof {
                    let added = step(chars@, p as int, state)->Emit_0;
                    match lex_from(chars@, next as int, st@) {
                        Ok(rest) => {
                            assert(before + (added + rest) == (before + added) + rest);
                        },
                        Err(_) => {},
                    }
                }
                pos = next;
            },
        }
    }
}

} // verus!
