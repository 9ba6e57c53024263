use format_xml::{lex, Class, LexError, Mark, Token, TokenKind};

fn m(mark: Mark, at: usize) -> Token {
    Token { kind: TokenKind::Mark(mark), at }
}

fn t(class: Class, text: &str, at: usize) -> Token {
    Token { kind: TokenKind::Text(class, text.to_string()), at }
}

fn slot(expr: &str, spec: Option<&str>, at: usize) -> Token {
    Token {
        kind: TokenKind::Slot { expr: expr.to_string(), spec: spec.map(|s| s.to_string()) },
        at,
    }
}

#[test]
fn empty_and_blank_sources_have_no_tokens() {
    assert_eq!(lex(""), Ok(vec![]));
    assert_eq!(lex(" \t\r\n "), Ok(vec![]));
}

#[test]
fn tag_with_attributes() {
    assert_eq!(
        lex(r#"<a-b:c x="1" y={v} />"#),
        Ok(vec![
            m(Mark::Lt, 0),
            t(Class::Name, "a-b:c", 1),
            t(Class::Name, "x", 7),
            m(Mark::Eq, 8),
            t(Class::Literal, "1", 9),
            t(Class::Name, "y", 13),
            m(Mark::Eq, 14),
            slot("v", None, 15),
            m(Mark::SlashGt, 19),
        ])
    );
}

#[test]
fn open_text_close() {
    assert_eq!(
        lex(r#"<p>"hi" 42 {x}</ p >"#),
        Ok(vec![
            m(Mark::Lt, 0),
            t(Class::Name, "p", 1),
            m(Mark::Gt, 2),
            t(Class::Literal, "hi", 3),
            t(Class::Literal, "42", 8),
            slot("x", None, 11),
            t(Class::Close, "p", 14),
        ])
    );
}

#[test]
fn literal_escapes() {
    assert_eq!(
        lex(r#""a\"b\\c\nd\te\rf\0g\qh""#),
        Ok(vec![t(Class::Literal, "a\"b\\c\nd\te\rf\0gqh", 0)])
    );
    assert_eq!(lex(r#""""#), Ok(vec![t(Class::Literal, "", 0)]));
    assert_eq!(lex("\"é<&>'\""), Ok(vec![t(Class::Literal, "é<&>'", 0)]));
}

#[test]
fn numeric_literals_are_kept_as_written() {
    assert_eq!(
        lex("1 2.50 1_000 0x1F"),
        Ok(vec![
            t(Class::Literal, "1", 0),
            t(Class::Literal, "2.50", 2),
            t(Class::Literal, "1_000", 7),
            t(Class::Literal, "0x1F", 13),
        ])
    );
}

#[test]
fn slots_are_trimmed_and_split_at_the_first_semicolon() {
    assert_eq!(lex("{ a.b }"), Ok(vec![slot("a.b", None, 0)]));
    assert_eq!(lex("{v;#x?}"), Ok(vec![slot("v", Some("#x?"), 0)]));
    assert_eq!(lex("{ v ; >8 }"), Ok(vec![slot("v", Some(">8"), 0)]));
    assert_eq!(lex("{v;}"), Ok(vec![slot("v", Some(""), 0)]));
    assert_eq!(lex("{}"), Ok(vec![slot("", None, 0)]));
    assert_eq!(lex("{f({a; b}) ; x}"), Ok(vec![slot("f({a; b})", Some("x"), 0)]));
    assert_eq!(lex(r#"{ m["}"] }"#), Ok(vec![slot(r#"m["}"]"#, None, 0)]));
    assert_eq!(lex(r#"{ ";" }"#), Ok(vec![slot(r#"";""#, None, 0)]));
}

#[test]
fn conditional_list() {
    assert_eq!(
        lex(r#"<p c=["a": x, "b:c": f(y, z[0]) ]>"#),
        Ok(vec![
            m(Mark::Lt, 0),
            t(Class::Name, "p", 1),
            t(Class::Name, "c", 3),
            m(Mark::Eq, 4),
            m(Mark::LBracket, 5),
            t(Class::Literal, "a", 6),
            t(Class::Guard, "x", 9),
            m(Mark::Comma, 12),
            t(Class::Literal, "b:c", 14),
            t(Class::Guard, "f(y, z[0])", 19),
            m(Mark::RBracket, 32),
            m(Mark::Gt, 33),
        ])
    );
}

#[test]
fn keywords_are_names_inside_a_tag() {
    assert_eq!(
        lex(r#"<label for="x" if="y">"#),
        Ok(vec![
            m(Mark::Lt, 0),
            t(Class::Name, "label", 1),
            t(Class::Name, "for", 7),
            m(Mark::Eq, 10),
            t(Class::Literal, "x", 11),
            t(Class::Name, "if", 15),
            m(Mark::Eq, 17),
            t(Class::Literal, "y", 18),
            m(Mark::Gt, 21),
        ])
    );
}

#[test]
fn if_else_chain() {
    assert_eq!(
        lex("if (a) { {x} } else if (b > (1)) { } else { }"),
        Ok(vec![
            m(Mark::If, 0),
            t(Class::Paren, "a", 3),
            m(Mark::LBrace, 7),
            slot("x", None, 9),
            m(Mark::RBrace, 13),
            m(Mark::Else, 15),
            m(Mark::If, 20),
            t(Class::Paren, "b > (1)", 23),
            m(Mark::LBrace, 33),
            m(Mark::RBrace, 35),
            m(Mark::Else, 37),
            m(Mark::LBrace, 42),
            m(Mark::RBrace, 44),
        ])
    );
}

#[test]
fn for_loop_head() {
    assert_eq!(
        lex("for (k, v) in (pairs) { }"),
        Ok(vec![
            m(Mark::For, 0),
            t(Class::Pattern, "(k, v)", 4),
            m(Mark::In, 11),
            t(Class::Paren, "pairs", 14),
            m(Mark::LBrace, 22),
            m(Mark::RBrace, 24),
        ])
    );
    assert_eq!(
        lex("for index in(xs){}"),
        Ok(vec![
            m(Mark::For, 0),
            t(Class::Pattern, "index", 4),
            m(Mark::In, 10),
            t(Class::Paren, "xs", 12),
            m(Mark::LBrace, 16),
            m(Mark::RBrace, 17),
        ])
    );
    assert_eq!(
        lex("for inner"),
        Ok(vec![m(Mark::For, 0), t(Class::Pattern, "inner", 4)])
    );
}

#[test]
fn let_binding() {
    assert_eq!(
        lex(r#"let x = a + ";" ; {x}"#),
        Ok(vec![
            m(Mark::Let, 0),
            t(Class::Pattern, "x", 4),
            m(Mark::Eq, 6),
            t(Class::Expr, r#"a + ";""#, 8),
            m(Mark::Semi, 16),
            slot("x", None, 18),
        ])
    );
    assert_eq!(lex("let x"), Ok(vec![m(Mark::Let, 0), t(Class::Pattern, "x", 4)]));
    assert_eq!(lex("let "), Ok(vec![m(Mark::Let, 0), t(Class::Pattern, "", 4)]));
    assert_eq!(
        lex("let x = y"),
        Ok(vec![
            m(Mark::Let, 0),
            t(Class::Pattern, "x", 4),
            m(Mark::Eq, 6),
            t(Class::Expr, "y", 8),
        ])
    );
}

#[test]
fn match_arms() {
    assert_eq!(
        lex("match (v) { Some(x) => { {x} } _ => { } } {y}"),
        Ok(vec![
            m(Mark::Match, 0),
            t(Class::Paren, "v", 6),
            m(Mark::LBrace, 10),
            t(Class::Pattern, "Some(x)", 12),
            m(Mark::Arrow, 20),
            m(Mark::LBrace, 23),
            slot("x", None, 25),
            m(Mark::RBrace, 29),
            t(Class::Pattern, "_", 31),
            m(Mark::Arrow, 33),
            m(Mark::LBrace, 36),
            m(Mark::RBrace, 38),
            m(Mark::RBrace, 40),
            slot("y", None, 42),
        ])
    );
    assert_eq!(
        lex("match (v) { stray"),
        Ok(vec![
            m(Mark::Match, 0),
            t(Class::Paren, "v", 6),
            m(Mark::LBrace, 10),
            t(Class::Pattern, "stray", 12),
        ])
    );
}

#[test]
fn a_brace_is_a_body_only_where_one_is_due() {
    assert_eq!(
        lex("{a} (b) {c}"),
        Ok(vec![
            slot("a", None, 0),
            t(Class::Paren, "b", 4),
            m(Mark::LBrace, 8),
            t(Class::Name, "c", 9),
            m(Mark::RBrace, 10),
        ])
    );
    assert_eq!(
        lex("else {a} {b}"),
        Ok(vec![
            m(Mark::Else, 0),
            m(Mark::LBrace, 5),
            t(Class::Name, "a", 6),
            m(Mark::RBrace, 7),
            slot("b", None, 9),
        ])
    );
}

#[test]
fn wrappers() {
    assert_eq!(
        lex(r#"<!doctype html><?xml v="1"?><!-- "c" {x} --><![CDATA["d"]]>"#),
        Ok(vec![
            m(Mark::DoctypeOpen, 0),
            t(Class::Literal, "html", 10),
            m(Mark::Gt, 14),
            m(Mark::PiOpen, 15),
            t(Class::Name, "xml", 17),
            t(Class::Name, "v", 21),
            m(Mark::Eq, 22),
            t(Class::Literal, "1", 23),
            m(Mark::PiClose, 26),
            m(Mark::CommentOpen, 28),
            t(Class::Literal, "c", 33),
            slot("x", None, 37),
            m(Mark::CommentClose, 41),
            m(Mark::CDataOpen, 44),
            t(Class::Literal, "d", 53),
            m(Mark::CDataClose, 56),
        ])
    );
    assert_eq!(
        lex("<!doctypes>"),
        Ok(vec![
            m(Mark::Lt, 0),
            Token { kind: TokenKind::Unknown('!'), at: 1 },
            t(Class::Name, "doctypes", 2),
            m(Mark::Gt, 10),
        ])
    );
}

#[test]
fn words_in_a_doctype_are_literals() {
    assert_eq!(
        lex(r#"<!doctype html PUBLIC "-//W3C" {dtd}><html a="b">"#),
        Ok(vec![
            m(Mark::DoctypeOpen, 0),
            t(Class::Literal, "html", 10),
            t(Class::Literal, "PUBLIC", 15),
            t(Class::Literal, "-//W3C", 22),
            slot("dtd", None, 31),
            m(Mark::Gt, 36),
            m(Mark::Lt, 37),
            t(Class::Name, "html", 38),
            t(Class::Name, "a", 43),
            m(Mark::Eq, 44),
            t(Class::Literal, "b", 45),
            m(Mark::Gt, 48),
        ])
    );
}

#[test]
fn characters_that_begin_no_token() {
    assert_eq!(
        lex("# é"),
        Ok(vec![
            Token { kind: TokenKind::Unknown('#'), at: 0 },
            Token { kind: TokenKind::Unknown('é'), at: 2 },
        ])
    );
    assert_eq!(lex("}"), Ok(vec![m(Mark::RBrace, 0)]));
    assert_eq!(lex("<a / >").unwrap()[2], Token { kind: TokenKind::Unknown('/'), at: 3 });
}

#[test]
fn unterminated_literal() {
    assert_eq!(lex(r#" "abc"#), Err(LexError::UnterminatedLiteral { at: 1 }));
    assert_eq!(lex(r#""abc\""#), Err(LexError::UnterminatedLiteral { at: 0 }));
    assert_eq!(lex(r#""abc\"#), Err(LexError::UnterminatedLiteral { at: 0 }));
    assert_eq!(lex(r#"<a b="c>"#), Err(LexError::UnterminatedLiteral { at: 5 }));
}

#[test]
fn unterminated_slot() {
    assert_eq!(lex("{a"), Err(LexError::UnterminatedSlot { at: 0 }));
    assert_eq!(lex("{a;b"), Err(LexError::UnterminatedSlot { at: 0 }));
    assert_eq!(lex("{a{b}"), Err(LexError::UnterminatedSlot { at: 0 }));
    assert_eq!(lex(r#"{a"}"#), Err(LexError::UnterminatedSlot { at: 0 }));
    assert_eq!(lex("if (a { }"), Err(LexError::UnterminatedSlot { at: 3 }));
    assert_eq!(lex("<a b=[\"c\": d>"), Err(LexError::UnterminatedSlot { at: 5 }));
    assert_eq!(lex("\"c\": d"), Err(LexError::UnterminatedSlot { at: 3 }));
}

#[test]
fn malformed_closing_tag() {
    assert_eq!(lex("</tag/>"), Err(LexError::MalformedClosingTag { at: 0 }));
    assert_eq!(lex("</tag a=\"b\">"), Err(LexError::MalformedClosingTag { at: 0 }));
    assert_eq!(lex("<a></>"), Err(LexError::MalformedClosingTag { at: 3 }));
    assert_eq!(lex("</a"), Err(LexError::MalformedClosingTag { at: 0 }));
    assert_eq!(lex("</1>"), Ok(vec![t(Class::Close, "1", 0)]));
}
