use format_xml::format::parse_specifier;
use format_xml::{format_value, Align, FormatError, FormatSpec, Style, Value};

fn integer(v: i64, spec: &str) -> String {
    format_value(&Value::Int(v), Some(spec)).unwrap()
}

fn txt(v: &str, spec: &str) -> String {
    format_value(&Value::Text(v.to_string()), Some(spec)).unwrap()
}

fn boolean(v: bool, spec: &str) -> String {
    format_value(&Value::Bool(v), Some(spec)).unwrap()
}

#[test]
fn default_representation() {
    assert_eq!(format_value(&Value::Int(42), None).unwrap(), "42");
    assert_eq!(format_value(&Value::Int(-7), None).unwrap(), "-7");
    assert_eq!(format_value(&Value::Int(0), None).unwrap(), "0");
    assert_eq!(format_value(&Value::Bool(true), None).unwrap(), "true");
    assert_eq!(format_value(&Value::Bool(false), None).unwrap(), "false");
    assert_eq!(format_value(&Value::Text("a<b>&\"c\"".to_string()), None).unwrap(), "a<b>&\"c\"");
    assert_eq!(format_value(&Value::Text(String::new()), None).unwrap(), "");
}

#[test]
fn hexadecimal_debug() {
    assert_eq!(integer(42, "#x?"), "0x2a");
    assert_eq!(integer(42, "#x?"), format!("{:#x?}", 42i64));
    assert_eq!(integer(42, "#X?"), format!("{:#X?}", 42i64));
    assert_eq!(integer(-42, "x?"), format!("{:x?}", -42i64));
}

#[test]
fn integer_extremes() {
    for v in [i64::MIN, i64::MIN + 1, -1, 0, 1, 9, 10, 99, 100, i64::MAX] {
        assert_eq!(integer(v, ""), format!("{}", v));
        assert_eq!(integer(v, "?"), format!("{:?}", v));
        assert_eq!(integer(v, "x"), format!("{:x}", v));
        assert_eq!(integer(v, "X"), format!("{:X}", v));
        assert_eq!(integer(v, "o"), format!("{:o}", v));
        assert_eq!(integer(v, "b"), format!("{:b}", v));
        assert_eq!(integer(v, "#x"), format!("{:#x}", v));
        assert_eq!(integer(v, "#o"), format!("{:#o}", v));
        assert_eq!(integer(v, "#b"), format!("{:#b}", v));
        assert_eq!(integer(v, "#"), format!("{:#}", v));
        assert_eq!(integer(v, "#?"), format!("{:#?}", v));
        assert_eq!(integer(v, "+"), format!("{:+}", v));
        assert_eq!(integer(v, "-"), format!("{:-}", v));
        assert_eq!(integer(v, "+x"), format!("{:+x}", v));
        assert_eq!(integer(v, "+#b"), format!("{:+#b}", v));
    }
}

#[test]
fn integer_width_and_alignment() {
    for v in [-123, -1, 0, 7, 255, 123456789] {
        assert_eq!(integer(v, "6"), format!("{:6}", v));
        assert_eq!(integer(v, "<6"), format!("{:<6}", v));
        assert_eq!(integer(v, "^6"), format!("{:^6}", v));
        assert_eq!(integer(v, "^7"), format!("{:^7}", v));
        assert_eq!(integer(v, ">6"), format!("{:>6}", v));
        assert_eq!(integer(v, "*<6"), format!("{:*<6}", v));
        assert_eq!(integer(v, "*^9"), format!("{:*^9}", v));
        assert_eq!(integer(v, "->8"), format!("{:->8}", v));
        assert_eq!(integer(v, "06"), format!("{:06}", v));
        assert_eq!(integer(v, "+06"), format!("{:+06}", v));
        assert_eq!(integer(v, "#06x"), format!("{:#06x}", v));
        assert_eq!(integer(v, "#010b"), format!("{:#010b}", v));
        assert_eq!(integer(v, "*<06"), format!("{:*<06}", v));
        assert_eq!(integer(v, "<+#12X"), format!("{:<+#12X}", v));
        assert_eq!(integer(v, "1"), format!("{:1}", v));
        assert_eq!(integer(v, "0"), format!("{:0}", v));
        assert_eq!(integer(v, "00"), format!("{:00}", v));
        assert_eq!(integer(v, "8.3"), format!("{:8.3}", v));
        assert_eq!(integer(v, ".0"), format!("{:.0}", v));
        assert_eq!(integer(v, "08x?"), format!("{:08x?}", v));
    }
}

#[test]
fn text_width_precision_and_alignment() {
    for v in ["", "a", "hello", "héllo wörld", "<&>\""] {
        assert_eq!(txt(v, ""), format!("{}", v));
        assert_eq!(txt(v, "8"), format!("{:8}", v));
        assert_eq!(txt(v, "<8"), format!("{:<8}", v));
        assert_eq!(txt(v, ">8"), format!("{:>8}", v));
        assert_eq!(txt(v, "^8"), format!("{:^8}", v));
        assert_eq!(txt(v, "^9"), format!("{:^9}", v));
        assert_eq!(txt(v, "_^9"), format!("{:_^9}", v));
        assert_eq!(txt(v, ".3"), format!("{:.3}", v));
        assert_eq!(txt(v, ".0"), format!("{:.0}", v));
        assert_eq!(txt(v, "8.3"), format!("{:8.3}", v));
        assert_eq!(txt(v, ">>8.3"), format!("{:>>8.3}", v));
        assert_eq!(txt(v, "08"), format!("{:08}", v));
        assert_eq!(txt(v, "+"), format!("{:+}", v));
        assert_eq!(txt(v, "#"), format!("{:#}", v));
    }
}

#[test]
fn text_debug_goes_through_the_host() {
    for v in ["", "plain", "quote\"d", "back\\slash", "line\nbreak\ttab", "héllo", "\u{7f}\u{0}"] {
        assert_eq!(txt(v, "?"), format!("{:?}", v));
        assert_eq!(txt(v, "#?"), format!("{:#?}", v));
        assert_eq!(txt(v, "x?"), format!("{:x?}", v));
        assert_eq!(txt(v, "X?"), format!("{:X?}", v));
        assert_eq!(txt(v, "12?"), format!("{:12?}", v));
        assert_eq!(txt(v, "*<12?"), format!("{:*<12?}", v));
        assert_eq!(txt(v, ".1?"), format!("{:.1?}", v));
        assert_eq!(txt(v, "012?"), format!("{:012?}", v));
    }
    assert_eq!(txt("a\"b", "?"), "\"a\\\"b\"");
    assert_ne!(txt("plain", "?"), "plain");
}

#[test]
fn bool_formats_like_text() {
    for v in [true, false] {
        assert_eq!(boolean(v, ""), format!("{}", v));
        assert_eq!(boolean(v, "?"), format!("{:?}", v));
        assert_eq!(boolean(v, "8"), format!("{:8}", v));
        assert_eq!(boolean(v, ">8"), format!("{:>8}", v));
        assert_eq!(boolean(v, "^8?"), format!("{:^8?}", v));
        assert_eq!(boolean(v, ".2"), format!("{:.2}", v));
        assert_eq!(boolean(v, "x?"), format!("{:x?}", v));
    }
}

#[test]
fn styles_that_do_not_apply() {
    let not = Err(FormatError::NotApplicable);
    assert_eq!(format_value(&Value::Text("a".to_string()), Some("x")), not);
    assert_eq!(format_value(&Value::Text("a".to_string()), Some("b")), not);
    assert_eq!(format_value(&Value::Bool(true), Some("o")), not);
    assert_eq!(format_value(&Value::Bool(true), Some("X")), not);
    assert_eq!(format_value(&Value::List(vec![]), None), not);
    assert_eq!(format_value(&Value::List(vec![Value::Int(1)]), Some("?")), not);
    assert_eq!(format_value(&Value::Cases(vec![]), None), not);
}

#[test]
fn bad_specifiers() {
    let bad = Err(FormatError::BadSpecifier);
    for spec in ["q", "e", "E", "p", "x x", "5.", ".", ".*", "1$", "65536", ".65536", "??", "xx", "5 ", "++", "<<<", "#+"] {
        assert_eq!(format_value(&Value::Int(1), Some(spec)), bad, "{:?}", spec);
        assert_eq!(parse_specifier(spec), None, "{:?}", spec);
    }
    assert_eq!(format_value(&Value::List(vec![]), Some("q")), bad);
}

#[test]
fn largest_field() {
    assert_eq!(integer(1, "65535").len(), 65535);
    assert_eq!(txt("é", ">65535").chars().count(), 65535);
    assert_eq!(txt("abc", ".65535"), "abc");
}

#[test]
fn specifier_taken_apart() {
    let plain = FormatSpec {
        fill: ' ',
        align: None,
        plus: false,
        alternate: false,
        zero: false,
        width: None,
        precision: None,
        style: Style::Display,
    };
    assert_eq!(parse_specifier(""), Some(plain));
    assert_eq!(
        parse_specifier("*^+#012.3X?"),
        Some(FormatSpec {
            fill: '*',
            align: Some(Align::Center),
            plus: true,
            alternate: true,
            zero: true,
            width: Some(12),
            precision: Some(3),
            style: Style::UpperHexDebug,
        })
    );
    assert_eq!(parse_specifier("<"), Some(FormatSpec { align: Some(Align::Left), ..plain }));
    assert_eq!(parse_specifier("<<"), Some(FormatSpec { fill: '<', align: Some(Align::Left), ..plain }));
    assert_eq!(parse_specifier(">5"), Some(FormatSpec { align: Some(Align::Right), width: Some(5), ..plain }));
    assert_eq!(parse_specifier("-"), Some(plain));
    assert_eq!(parse_specifier("0"), Some(FormatSpec { zero: true, ..plain }));
    assert_eq!(parse_specifier("10"), Some(FormatSpec { width: Some(10), ..plain }));
    assert_eq!(parse_specifier("010"), Some(FormatSpec { zero: true, width: Some(10), ..plain }));
    assert_eq!(parse_specifier(".0b"), Some(FormatSpec { precision: Some(0), style: Style::Binary, ..plain }));
    assert_eq!(parse_specifier("o"), Some(FormatSpec { style: Style::Octal, ..plain }));
    assert_eq!(parse_specifier("x"), Some(FormatSpec { style: Style::LowerHex, ..plain }));
    assert_eq!(parse_specifier("?"), Some(FormatSpec { style: Style::Debug, ..plain }));
    assert_eq!(parse_specifier("x?"), Some(FormatSpec { style: Style::LowerHexDebug, ..plain }));
}
