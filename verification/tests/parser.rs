use format_xml::{
    lex, parse, Arm, AttrValue, Attribute, Branch, Class, Expected, Guarded, Mark, Node,
    ParseError, Token, TokenKind,
};

fn tree(src: &str) -> Result<Vec<Node>, ParseError> {
    parse(&lex(src).unwrap())
}

fn lit(s: &str) -> Node {
    Node::Literal(s.to_string())
}

fn slot(expr: &str) -> Node {
    Node::Slot { expr: expr.to_string(), spec: None }
}

fn element(name: &str, attributes: Vec<Attribute>, children: Vec<Node>) -> Node {
    Node::Element {
        name: name.to_string(),
        attributes,
        self_closing: false,
        children,
        close_name: name.to_string(),
    }
}

fn fails(src: &str, index: usize, expected: Expected) {
    assert_eq!(tree(src), Err(ParseError { index, expected }), "{:?}", src);
}

fn m(mark: Mark) -> Token {
    Token { kind: TokenKind::Mark(mark), at: 0 }
}

fn t(class: Class, text: &str) -> Token {
    Token { kind: TokenKind::Text(class, text.to_string()), at: 0 }
}

#[test]
fn empty_template() {
    assert_eq!(tree(""), Ok(vec![]));
    assert_eq!(parse(&vec![]), Ok(vec![]));
}

#[test]
fn text_nodes() {
    assert_eq!(
        tree(r#""a" {b} {c;x} 1"#),
        Ok(vec![
            lit("a"),
            slot("b"),
            Node::Slot { expr: "c".to_string(), spec: Some("x".to_string()) },
            lit("1"),
        ])
    );
}

#[test]
fn nested_elements_with_attributes() {
    assert_eq!(
        tree(r#"<a x="1" y={v;?} z=["p": c, "q": d]><b/>"t"<c></d></a>"#),
        Ok(vec![element(
            "a",
            vec![
                Attribute { name: "x".to_string(), value: AttrValue::Static("1".to_string()) },
                Attribute {
                    name: "y".to_string(),
                    value: AttrValue::Slot { expr: "v".to_string(), spec: Some("?".to_string()) },
                },
                Attribute {
                    name: "z".to_string(),
                    value: AttrValue::ConditionalList(vec![
                        Guarded { literal: "p".to_string(), condition: "c".to_string() },
                        Guarded { literal: "q".to_string(), condition: "d".to_string() },
                    ]),
                },
            ],
            vec![
                Node::Element {
                    name: "b".to_string(),
                    attributes: vec![],
                    self_closing: true,
                    children: vec![],
                    close_name: String::new(),
                },
                lit("t"),
                Node::Element {
                    name: "c".to_string(),
                    attributes: vec![],
                    self_closing: false,
                    children: vec![],
                    close_name: "d".to_string(),
                },
            ],
        )])
    );
}

#[test]
fn wrappers_hold_text_nodes() {
    assert_eq!(
        tree(r#"<!doctype html "x" {y}><!-- "c" {d} --><![CDATA[ {e} "f" ]]><!----><![CDATA[]]>"#),
        Ok(vec![
            Node::Doctype(vec![lit("html"), lit("x"), slot("y")]),
            Node::Comment(vec![lit("c"), slot("d")]),
            Node::CData(vec![slot("e"), lit("f")]),
            Node::Comment(vec![]),
            Node::CData(vec![]),
        ])
    );
}

#[test]
fn conditional_lists() {
    let list = |src: &str| match tree(src).unwrap().remove(0) {
        Node::Element { mut attributes, .. } => match attributes.remove(0).value {
            AttrValue::ConditionalList(entries) => entries,
            other => panic!("{:?}", other),
        },
        other => panic!("{:?}", other),
    };
    assert_eq!(list("<a b=[]/>"), vec![]);
    assert_eq!(
        list("<a b=[\"x\": c]/>"),
        vec![Guarded { literal: "x".to_string(), condition: "c".to_string() }]
    );
    assert_eq!(
        list("<a b=[\"x\": c, \"\": d && e]/>"),
        vec![
            Guarded { literal: "x".to_string(), condition: "c".to_string() },
            Guarded { literal: "".to_string(), condition: "d && e".to_string() },
        ]
    );
}

#[test]
fn processing_instruction_is_written_out_as_text() {
    assert_eq!(
        tree(r#"<?xml version="1.0" encoding={enc}?><?php?>"#),
        Ok(vec![
            Node::ProcessingInstruction(vec![
                lit("xml"),
                lit(" version=\""),
                lit("1.0"),
                lit("\""),
                lit(" encoding=\""),
                slot("enc"),
                lit("\""),
            ]),
            Node::ProcessingInstruction(vec![lit("php")]),
        ])
    );
}

#[test]
fn conditional_chain() {
    assert_eq!(
        tree(r#"if (a) { "1" } else if (b) { } else if (c) { "3" } else { "4" } if (d) { }"#),
        Ok(vec![
            Node::If {
                branches: vec![
                    Branch { condition: "a".to_string(), body: vec![lit("1")] },
                    Branch { condition: "b".to_string(), body: vec![] },
                    Branch { condition: "c".to_string(), body: vec![lit("3")] },
                ],
                else_body: Some(vec![lit("4")]),
            },
            Node::If {
                branches: vec![Branch { condition: "d".to_string(), body: vec![] }],
                else_body: None,
            },
        ])
    );
}

#[test]
fn match_for_and_let() {
    assert_eq!(
        tree(r#"match (v) { A(x) => { {x} } _ => { } } for i in (xs) { let y = i.f; {y} } match (w) { }"#),
        Ok(vec![
            Node::Match {
                scrutinee: "v".to_string(),
                arms: vec![
                    Arm { pattern: "A(x)".to_string(), body: vec![slot("x")] },
                    Arm { pattern: "_".to_string(), body: vec![] },
                ],
            },
            Node::For {
                pattern: "i".to_string(),
                iterable: "xs".to_string(),
                body: vec![
                    Node::LetBinding { pattern: "y".to_string(), value: "i.f".to_string() },
                    slot("y"),
                ],
            },
            Node::Match { scrutinee: "w".to_string(), arms: vec![] },
        ])
    );
}

#[test]
fn control_flow_inside_elements() {
    assert_eq!(
        tree(r#"<ul>for i in (xs) { <li>if (i) { {i} }</li> }</ul>"#),
        Ok(vec![element(
            "ul",
            vec![],
            vec![Node::For {
                pattern: "i".to_string(),
                iterable: "xs".to_string(),
                body: vec![element(
                    "li",
                    vec![],
                    vec![Node::If {
                        branches: vec![Branch { condition: "i".to_string(), body: vec![slot("i")] }],
                        else_body: None,
                    }],
                )],
            }],
        )])
    );
}

#[test]
fn expected_node() {
    fails("word", 0, Expected::Node);
    fails("\"a\" </b>", 1, Expected::Node);
    fails("<a/> }", 3, Expected::Node);
    fails("else { }", 0, Expected::Node);
    fails("<br/>\"child\"</br>", 4, Expected::Node);
}

#[test]
fn expected_in_tags() {
    fails("<", 1, Expected::Name);
    fails("<>", 1, Expected::Name);
    fails("<\"a\">", 1, Expected::Name);
    fails("<a b>", 3, Expected::Assign);
    fails("<a b", 3, Expected::Assign);
    fails("<a b=>", 4, Expected::Value);
    fails("<a b=c>", 4, Expected::Value);
    fails("<a b=", 4, Expected::Value);
    fails("<a", 2, Expected::TagEnd);
    fails("<a \"b\">", 2, Expected::TagEnd);
    fails("<a b=\"c\" {d}>", 5, Expected::TagEnd);
    fails("<a>", 3, Expected::ClosingTag);
    fails("<a><b></b>", 7, Expected::ClosingTag);
    fails("<a> if (c) { </a> }", 6, Expected::BodyClose);
}

#[test]
fn expected_in_conditional_lists() {
    fails("<a b=[c]>", 5, Expected::Literal);
    fails("<a b=[,]>", 5, Expected::Literal);
    fails("<a b=[\"c\"]>", 6, Expected::Guard);
    fails("<a b=[\"c\": d,, ]>", 8, Expected::Literal);
    fails("<a b=[\"c\": d, ]>", 8, Expected::Literal);
}

#[test]
fn expected_in_wrappers() {
    fails("<!doctype html", 2, Expected::DoctypeEnd);
    fails("<!doctype a=\"b\">", 2, Expected::DoctypeEnd);
    fails("<?", 1, Expected::Name);
    fails("<?xml", 2, Expected::PiEnd);
    fails("<?xml a>", 3, Expected::Assign);
    fails("<?xml a=[]?>", 4, Expected::Value);
    fails("<?xml a=\"b\">", 5, Expected::PiEnd);
    fails("<!-- \"a\"", 2, Expected::CommentEnd);
    fails("<!-- word -->", 1, Expected::CommentEnd);
    fails("<![CDATA[ \"a\" <b/> ]]>", 2, Expected::CDataEnd);
}

#[test]
fn expected_in_control_flow() {
    fails("if", 1, Expected::Condition);
    fails("if c { }", 1, Expected::Condition);
    fails("if (c)", 2, Expected::BodyOpen);
    fails("if (c) \"a\"", 2, Expected::BodyOpen);
    fails("if (c) { \"a\"", 4, Expected::BodyClose);
    fails("if (c) { } else", 5, Expected::BodyOpen);
    fails("if (c) { } else \"a\"", 5, Expected::BodyOpen);
    fails("match v { }", 1, Expected::Condition);
    fails("match (v)", 2, Expected::BodyOpen);
    fails("match (v) {", 3, Expected::Pattern);
    fails("match (v) { a", 4, Expected::Arrow);
    fails("match (v) { a => \"b\" }", 5, Expected::BodyOpen);
    fails("match (v) { a => { }", 7, Expected::Pattern);
    fails("for x", 2, Expected::In);
    fails("for x in xs { }", 3, Expected::Condition);
    fails("for x in (xs)", 4, Expected::BodyOpen);
    fails("for x in (xs) { <a/>", 8, Expected::BodyClose);
    fails("let x", 2, Expected::Assign);
    fails("let x = y", 4, Expected::Semi);
}

#[test]
fn expected_on_tokens_no_source_gives() {
    assert_eq!(
        parse(&vec![m(Mark::For), m(Mark::In)]),
        Err(ParseError { index: 1, expected: Expected::Pattern })
    );
    assert_eq!(
        parse(&vec![m(Mark::Let), t(Class::Pattern, "x"), m(Mark::Eq), m(Mark::Semi)]),
        Err(ParseError { index: 3, expected: Expected::Expression })
    );
    assert_eq!(
        parse(&vec![
            m(Mark::Lt),
            t(Class::Name, "a"),
            t(Class::Name, "b"),
            m(Mark::Eq),
            m(Mark::LBracket),
            t(Class::Literal, "c"),
            t(Class::Guard, "d"),
            t(Class::Literal, "e"),
        ]),
        Err(ParseError { index: 7, expected: Expected::ListEnd })
    );
    assert_eq!(
        parse(&vec![m(Mark::Let), m(Mark::Eq)]),
        Err(ParseError { index: 1, expected: Expected::Pattern })
    );
    assert_eq!(
        parse(&vec![m(Mark::Lt), t(Class::Name, "a"), m(Mark::Gt), t(Class::Close, "b")]),
        Ok(vec![Node::Element {
            name: "a".to_string(),
            attributes: vec![],
            self_closing: false,
            children: vec![],
            close_name: "b".to_string(),
        }])
    );
}
