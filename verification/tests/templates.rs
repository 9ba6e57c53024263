use format_xml::{
    Binding, BoundedSink, Case, CompileError, Context, Expected, FnFmt, LexError, RenderError, Sink,
    Template, Value,
};

fn text(s: &str) -> Value {
    Value::Text(s.to_string())
}

fn render(src: &str, context: &Context) -> String {
    Template::compile(src).unwrap().render_to_string(context).unwrap()
}

#[test]
fn basic_usage() {
    let mut context = Context::new();
    context.set("point.0", Value::Int(20));
    context.set("point.1", Value::Int(30));
    context.set("name", text("World"));
    let out = render(
        r#"
        <svg width="200" height="200">
            <line x1="0" y1="0" x2={point.0} y2={point.1} stroke="black" stroke-width="2" />
            <text x={point.1} y={point.0}>"Hello '" {name} "'!"</text>
        </svg>
        "#,
        &context,
    );
    assert_eq!(
        out,
        r#"<svg width="200" height="200"><line x1="0" y1="0" x2="20" y2="30" stroke="black" stroke-width="2" /><text x="30" y="20">Hello 'World'!</text></svg>"#
    );
}

#[test]
fn formatting_specifiers() {
    let mut context = Context::new();
    context.set("value", Value::Int(42));
    let out = render(r#"<span data-value={value}>{value;#x?}</span>"#, &context);
    assert_eq!(out, r#"<span data-value="42">0x2a</span>"#);
}

#[test]
fn supported_tags() {
    let out = render(
        r#"
        <!doctype html>
        <?xml version="1.0" encoding="UTF-8"?>
        <tag-name></tag-name>
        <ns:self-closing-tag />
        <!-- "comment" -->
        <![CDATA["cdata"]]>
        "#,
        &Context::new(),
    );
    assert_eq!(
        out,
        r#"<!doctype html><?xml version="1.0" encoding="UTF-8"?><tag-name></tag-name><ns:self-closing-tag /><!-- comment --><![CDATA[cdata]]>"#
    );
}

fn times_table() -> Value {
    let mut items = Vec::new();
    for i in 1..=5 {
        items.push(Value::Cases(vec![Case {
            pattern: "i".to_string(),
            bindings: vec![
                Binding { name: "i".to_string(), value: Value::Int(i) },
                Binding { name: "i * 5".to_string(), value: Value::Int(i * 5) },
            ],
        }]));
    }
    Value::List(items)
}

const CONTROL_FLOW: &str = r#"
    if (switch) {
        match (result) {
            Ok(f) => { <i>{f}</i> }
            Err(i) => { <b>{i}</b> }
        }
        <ul>
        for i in (1..=5) {
            let times_five = i * 5;
            <li>{i}"*5="{times_five}</li>
        }
        </ul>
    }
    else {
        <p>"No contents"</p>
    }
"#;

#[test]
fn control_flow() {
    let mut context = Context::new();
    context.set("switch", Value::Bool(true));
    context.set(
        "result",
        Value::Cases(vec![Case {
            pattern: "Err(i)".to_string(),
            bindings: vec![Binding { name: "i".to_string(), value: Value::Int(13) }],
        }]),
    );
    context.set("1..=5", times_table());
    assert_eq!(
        render(CONTROL_FLOW, &context),
        "<b>13</b><ul><li>1*5=5</li><li>2*5=10</li><li>3*5=15</li><li>4*5=20</li><li>5*5=25</li></ul>"
    );
}

#[test]
fn control_flow_else_branch() {
    let mut context = Context::new();
    context.set("switch", Value::Bool(false));
    assert_eq!(render(CONTROL_FLOW, &context), "<p>No contents</p>");
}

#[test]
fn specialised_attribute_syntax() {
    let mut context = Context::new();
    context.set("has_a", Value::Bool(true));
    context.set("has_b", Value::Bool(false));
    context.set("make_red", Value::Bool(true));
    let out = render(
        r#"<div class=["class-a": has_a, "class-b": has_b]><span style=["color: red;": make_red]></span></div>"#,
        &context,
    );
    assert_eq!(out, r#"<div class="class-a "><span style="color: red; "></span></div>"#);
}

#[test]
fn conditional_list_keeps_order_and_trailing_space() {
    let mut context = Context::new();
    context.set("true", Value::Bool(true));
    context.set("false", Value::Bool(false));
    let out = render(r#"<p class=["a":true,"b":false,"c":true]/>"#, &context);
    assert_eq!(out, r#"<p class="a c " />"#);
}

#[test]
fn conditional_list_with_no_true_entry_is_empty_attribute() {
    let mut context = Context::new();
    context.set("no", Value::Bool(false));
    assert_eq!(render(r#"<p class=["a": no, "b": no]/>"#, &context), r#"<p class="" />"#);
    assert_eq!(render(r#"<p class=[]/>"#, &context), r#"<p class="" />"#);
}

#[test]
fn if_chain_renders_exactly_one_body() {
    let src = r#"if (c1) { "one" } else if (c2) { "two" } else { "three" }"#;
    let template = Template::compile(src).unwrap();
    for (c1, c2, expected) in [
        (true, true, "one"),
        (true, false, "one"),
        (false, true, "two"),
        (false, false, "three"),
    ] {
        let mut context = Context::new();
        context.set("c1", Value::Bool(c1));
        context.set("c2", Value::Bool(c2));
        assert_eq!(template.render_to_string(&context).unwrap(), expected);
    }
}

#[test]
fn if_without_else_renders_nothing_when_all_false() {
    let mut context = Context::new();
    context.set("c1", Value::Bool(false));
    context.set("c2", Value::Bool(false));
    assert_eq!(render(r#""[" if (c1) { "one" } else if (c2) { "two" } "]""#, &context), "[]");
}

#[test]
fn self_closing_tag_has_no_children() {
    let template = Template::compile(r#"<br class="x"/>"#).unwrap();
    assert_eq!(template.render_to_string(&Context::new()).unwrap(), r#"<br class="x" />"#);
    match &template.nodes[0] {
        format_xml::Node::Element { self_closing, children, .. } => {
            assert!(*self_closing);
            assert!(children.is_empty());
        }
        other => panic!("{:?}", other),
    }
}

#[test]
fn children_after_self_closing_tag_do_not_parse() {
    let r = Template::compile(r#"<br/>"child"</br>"#);
    assert_eq!(r, Err(CompileError::Parse { at: 12, expected: Expected::Node }));
}

#[test]
fn open_and_close_names_are_independent() {
    assert_eq!(render("<open></close>", &Context::new()), "<open></close>");
}

#[test]
fn loop_renders_items_in_order() {
    let mut context = Context::new();
    context.set("1..=3", Value::List(vec![Value::Int(1), Value::Int(2), Value::Int(3)]));
    assert_eq!(
        render("for i in (1..=3) { <li>{i}</li> }", &context),
        "<li>1</li><li>2</li><li>3</li>"
    );
}

#[test]
fn loop_over_empty_iterable_renders_nothing() {
    let mut context = Context::new();
    context.set("items", Value::List(vec![]));
    assert_eq!(render("for i in (items) { <li>{i}</li> }", &context), "");
}

#[test]
fn specifier_is_passed_through() {
    let mut context = Context::new();
    context.set("42", Value::Int(42));
    context.set("value", text("plain"));
    assert_eq!(render("{42;#x?}", &context), "0x2a");
    assert_eq!(render("{value}", &context), "plain");
    assert_eq!(render("{ 42 ; >6 }", &context), "    42");
}

#[test]
fn nothing_is_escaped() {
    let mut context = Context::new();
    context.set("v", text(r#"<a href="x">&amp;</a>"#));
    assert_eq!(
        render(r#""<&>\"" {v} <p title={v}>"&"</p>"#, &context),
        r#"<&>"<a href="x">&amp;</a><p title="<a href="x">&amp;</a>">&</p>"#
    );
}

#[test]
fn literal_only_template_is_reproduced() {
    let src = r#"<a href="x" id="y"><b>"bold" 12 " and " 3.5</b><i/></a>"tail""#;
    let template = Template::compile(src).unwrap();
    let expected = r#"<a href="x" id="y"><b>bold12 and 3.5</b><i /></a>tail"#;
    assert_eq!(template.render_to_string(&Context::new()).unwrap(), expected);
    let mut other = Context::new();
    other.set("x", Value::Int(1));
    assert_eq!(template.render_to_string(&other).unwrap(), expected);
}

#[test]
fn let_binding_is_visible_to_later_siblings_only() {
    let mut context = Context::new();
    context.set("a", Value::Int(1));
    context.set("b", Value::Int(2));
    assert_eq!(render("let x = a; {x} <p> let x = b; {x} </p> {x}", &context), "1<p>2</p>1");
    let r = Template::compile("{x} let x = a;").unwrap().render_to_string(&context);
    assert_eq!(r, Err(RenderError::Unbound("x".to_string())));
}

#[test]
fn match_takes_first_matching_arm() {
    let src = r#"match (v) { Some(x) => { "some " {x} } _ => { "other" } }"#;
    let template = Template::compile(src).unwrap();
    let mut context = Context::new();
    context.set(
        "v",
        Value::Cases(vec![
            Case { pattern: "_".to_string(), bindings: vec![] },
            Case {
                pattern: "Some(x)".to_string(),
                bindings: vec![Binding { name: "x".to_string(), value: Value::Int(7) }],
            },
        ]),
    );
    assert_eq!(template.render_to_string(&context).unwrap(), "some 7");
    let mut context = Context::new();
    context.set("v", Value::Cases(vec![Case { pattern: "_".to_string(), bindings: vec![] }]));
    assert_eq!(template.render_to_string(&context).unwrap(), "other");
    let mut context = Context::new();
    context.set("v", Value::Cases(vec![]));
    assert_eq!(
        template.render_to_string(&context),
        Err(RenderError::NoMatch("v".to_string()))
    );
    let mut context = Context::new();
    context.set("v", Value::Int(3));
    let named = Template::compile(r#"match (v) { n => { {n} } }"#).unwrap();
    assert_eq!(named.render_to_string(&context).unwrap(), "3");
}

#[test]
fn render_errors() {
    let mut context = Context::new();
    context.set("n", Value::Int(1));
    context.set("t", text("t"));
    context.set("l", Value::List(vec![Value::Cases(vec![])]));
    let run = |src: &str| Template::compile(src).unwrap().render_to_string(&context);
    assert_eq!(run("{missing}"), Err(RenderError::Unbound("missing".to_string())));
    assert_eq!(run("if (n) { }"), Err(RenderError::NotBoolean("n".to_string())));
    assert_eq!(run("if (missing) { }"), Err(RenderError::Unbound("missing".to_string())));
    assert_eq!(run("for x in (n) { }"), Err(RenderError::NotIterable("n".to_string())));
    assert_eq!(run("for x in (l) { }"), Err(RenderError::NoMatch("x".to_string())));
    assert_eq!(
        run("{t;x}"),
        Err(RenderError::Format("t".to_string(), format_xml::FormatError::NotApplicable))
    );
    assert_eq!(
        run("{n;q}"),
        Err(RenderError::Format("n".to_string(), format_xml::FormatError::BadSpecifier))
    );
    assert_eq!(run("<p a=[\"x\": t]/>"), Err(RenderError::NotBoolean("t".to_string())));
}

#[test]
fn render_error_keeps_what_was_written() {
    let template = Template::compile(r#"<p>"before" {missing} "after"</p>"#).unwrap();
    let mut out = String::new();
    let r = template.render(&Context::new(), &mut out);
    assert_eq!(r, Err(RenderError::Unbound("missing".to_string())));
    assert_eq!(out, "<p>before");
}

#[test]
fn sink_refusal_stops_the_render() {
    let template = Template::compile(r#"<p>"0123456789"</p>"#).unwrap();
    let mut sink = BoundedSink::new(5);
    let r = template.render(&Context::new(), &mut sink);
    assert_eq!(r, Err(RenderError::Write));
    assert_eq!(sink.text, "<p>");
    assert_eq!(sink.room, 2);
    let mut sink = BoundedSink::new(17);
    assert_eq!(template.render(&Context::new(), &mut sink), Ok(()));
    assert_eq!(sink.text, "<p>0123456789</p>");
    assert_eq!(sink.room, 0);
    assert_eq!(sink.write("x"), Err(format_xml::WriteError));
}

#[test]
fn tree_is_reusable_across_renders() {
    let template = Template::compile("<p>{v}</p>").unwrap();
    let mut a = Context::new();
    a.set("v", Value::Int(1));
    let mut b = Context::new();
    b.set("v", text("two"));
    assert_eq!(template.render_to_string(&a).unwrap(), "<p>1</p>");
    assert_eq!(template.render_to_string(&b).unwrap(), "<p>two</p>");
    assert_eq!(template.render_to_string(&a).unwrap(), "<p>1</p>");
}

#[test]
fn later_binding_hides_earlier() {
    let mut context = Context::new();
    context.set("v", Value::Int(1));
    context.set("v", Value::Int(2));
    assert_eq!(context.get(&"v".to_string()), Some(&Value::Int(2)));
    assert_eq!(context.get(&"w".to_string()), None);
    assert_eq!(render("{v}", &context), "2");
}

#[test]
fn compile_errors() {
    assert_eq!(
        Template::compile(r#"<p>"open"#).unwrap_err(),
        CompileError::Lex(LexError::UnterminatedLiteral { at: 3 })
    );
    assert_eq!(
        Template::compile("<p>{x").unwrap_err(),
        CompileError::Lex(LexError::UnterminatedSlot { at: 3 })
    );
    assert_eq!(
        Template::compile("<p a=[\"x\": c >").unwrap_err(),
        CompileError::Lex(LexError::UnterminatedSlot { at: 5 })
    );
    assert_eq!(
        Template::compile("<p></p/>").unwrap_err(),
        CompileError::Lex(LexError::MalformedClosingTag { at: 3 })
    );
    assert_eq!(
        Template::compile("<p></p a=\"b\">").unwrap_err(),
        CompileError::Lex(LexError::MalformedClosingTag { at: 3 })
    );
    assert_eq!(
        Template::compile("<p>").unwrap_err(),
        CompileError::Parse { at: 3, expected: Expected::ClosingTag }
    );
    assert_eq!(
        Template::compile("if c { }").unwrap_err(),
        CompileError::Parse { at: 3, expected: Expected::Condition }
    );
    assert_eq!(
        Template::compile("<p a>").unwrap_err(),
        CompileError::Parse { at: 4, expected: Expected::Assign }
    );
    assert_eq!(
        Template::compile("<p a=>").unwrap_err(),
        CompileError::Parse { at: 5, expected: Expected::Value }
    );
    assert_eq!(
        Template::compile("word").unwrap_err(),
        CompileError::Parse { at: 0, expected: Expected::Node }
    );
}

#[test]
fn deferred_rendering() {
    let template = Template::compile("<p>{v}</p>").unwrap();
    let mut context = Context::new();
    context.set("v", Value::Int(5));
    let deferred = FnFmt(|| template.render_to_string(&context));
    assert_eq!(deferred.to_string(), Ok("<p>5</p>".to_string()));
    let mut out = String::from("> ");
    assert_eq!(deferred.fmt(&mut out), Ok(()));
    assert_eq!(out, "> <p>5</p>");
    let mut small = BoundedSink::new(3);
    assert_eq!(deferred.fmt(&mut small), Err(RenderError::Write));
    let failing = FnFmt(|| Template::compile("{w}").unwrap().render_to_string(&context));
    assert_eq!(failing.fmt(&mut out), Err(RenderError::Unbound("w".to_string())));
    assert_eq!(out, "> <p>5</p>");
}
