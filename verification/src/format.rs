//! The format dispatcher: turns a value and an optional format specifier
//! into text.
//!
//! A specifier follows the grammar of the host's formatting protocol,
//! `[[fill]align][sign]['#']['0'][width]['.' precision][type]`, and is applied
//! as that protocol applies it. Without a specifier a value has its default
//! representation.

use vstd::prelude::*;
use crate::text::{append_chars, chars_of, string_of};
use crate::value::Value;

verus! {

/// Where the text goes within a wider field.
#[derive(Clone, Copy, Debug, PartialEq, Eq, Structural)]
pub enum Align {
    Left,
    Center,
    Right,
}

/// The representation that a specifier's type selects.
#[derive(Clone, Copy, Debug, PartialEq, Eq, Structural)]
pub enum Style {
    Display,
    Debug,
    LowerHex,
    UpperHex,
    Octal,
    Binary,
    LowerHexDebug,
    UpperHexDebug,
}

/// A format specifier, taken apart.
#[derive(Clone, Copy, Debug, PartialEq, Eq)]
pub struct FormatSpec {
    pub fill: char,
    pub align: Option<Align>,
    pub plus: bool,
    pub alternate: bool,
    pub zero: bool,
    pub width: Option<usize>,
    pub precision: Option<usize>,
    pub style: Style,
}

/// Why a value could not be formatted.
#[derive(Clone, Copy, Debug, PartialEq, Eq, Structural)]
pub enum FormatError {
    /// The specifier does not follow the grammar, names a type this crate
    /// does not dispatch, or asks for a width or precision beyond `MAX_FIELD`.
    BadSpecifier,
    /// The value has no representation of the style that was asked for.
    NotApplicable,
}

/// The largest width or precision that a specifier may ask for.
pub const MAX_FIELD: usize = 65535;

/// The alignment that `<`, `^` or `>` asks for.
pub open spec fn align_of(c: char) -> Option<Align> {
    if c == '<' {
        Some(Align::Left)
    } else if c == '^' {
        Some(Align::Center)
    } else if c == '>' {
        Some(Align::Right)
    } else {
        None
    }
}

pub open spec fn is_digit(c: char) -> bool {
    '0' <= c <= '9'
}

pub open spec fn digit_value(c: char) -> nat {
    (c as int - '0' as int) as nat
}

/// Whether `s` holds the character `c` at index `i`.
pub open spec fn at(s: Seq<char>, i: int, c: char) -> bool {
    0 <= i < s.len() && s[i] == c
}

/// The end of the run of decimal digits that starts at `i`.
pub open spec fn digits_end(s: Seq<char>, i: int) -> int
    decreases s.len() - i,
{
    if 0 <= i < s.len() && is_digit(s[i]) {
        digits_end(s, i + 1)
    } else {
        i
    }
}

/// The number that the decimal digits of `s` in `[from, to)` write.
pub open spec fn number(s: Seq<char>, from: int, to: int) -> nat
    decreases to - from,
{
    if from >= to {
        0
    } else {
        number(s, from, to - 1) * 10 + digit_value(s[to - 1])
    }
}

/// The style that the type at the end of a specifier selects.
pub open spec fn style_of(t: Seq<char>) -> Option<Style> {
    if t.len() == 0 {
        Some(Style::Display)
    } else if t.len() == 1 && t[0] == '?' {
        Some(Style::Debug)
    } else if t.len() == 1 && t[0] == 'x' {
        Some(Style::LowerHex)
    } else if t.len() == 1 && t[0] == 'X' {
        Some(Style::UpperHex)
    } else if t.len() == 1 && t[0] == 'o' {
        Some(Style::Octal)
    } else if t.len() == 1 && t[0] == 'b' {
        Some(Style::Binary)
    } else if t.len() == 2 && t[0] == 'x' && t[1] == '?' {
        Some(Style::LowerHexDebug)
    } else if t.len() == 2 && t[0] == 'X' && t[1] == '?' {
        Some(Style::UpperHexDebug)
    } else {
        None
    }
}

/// The specifier without any flag: what a slot without a specifier gets.
pub open spec fn plain() -> FormatSpec {
    FormatSpec {
        fill: ' ',
        align: None,
        plus: false,
        alternate: false,
        zero: false,
        width: None,
        precision: None,
        style: Style::Display,
    }
}

/// What the specifier text `s` asks for, or `None` where it is not a
/// specifier that this crate dispatches.
pub open spec fn parse_format(s: Seq<char>) -> Option<FormatSpec> {
    let filled = s.len() >= 2 && align_of(s[1]) is Some;
    let aligned = !filled && s.len() >= 1 && align_of(s[0]) is Some;
    let fill = if filled { s[0] } else { ' ' };
    let align = if filled { align_of(s[1]) } else if aligned { align_of(s[0]) } else { None };
    let i0: int = if filled { 2 } else if aligned { 1 } else { 0 };
    let plus = at(s, i0, '+');
    let i1 = if plus || at(s, i0, '-') { i0 + 1 } else { i0 };
    let alternate = at(s, i1, '#');
    let i2 = if alternate { i1 + 1 } else { i1 };
    let zero = at(s, i2, '0');
    let i3 = if zero { i2 + 1 } else { i2 };
    let i4 = digits_end(s, i3);
    let dotted = at(s, i4, '.');
    let i5 = if dotted { digits_end(s, i4 + 1) } else { i4 };
    let style = style_of(s.subrange(i5, s.len() as int));
    if (dotted && i5 == i4 + 1) || style is None || number(s, i3, i4) > MAX_FIELD || (dotted
        && number(s, i4 + 1, i5) > MAX_FIELD) {
        None
    } else {
        Some(
            FormatSpec {
                fill,
                align,
                plus,
                alternate,
                zero,
                width: if i4 > i3 { Some(number(s, i3, i4) as usize) } else { None },
                precision: if dotted { Some(number(s, i4 + 1, i5) as usize) } else { None },
                style: style->0,
            },
        )
    }
}

/// The digit that writes `d` in a base up to sixteen.
pub open spec fn digit_char(d: nat, upper: bool) -> char {
    if d == 0 {
        '0'
    } else if d == 1 {
        '1'
    } else if d == 2 {
        '2'
    } else if d == 3 {
        '3'
    } else if d == 4 {
        '4'
    } else if d == 5 {
        '5'
    } else if d == 6 {
        '6'
    } else if d == 7 {
        '7'
    } else if d == 8 {
        '8'
    } else if d == 9 {
        '9'
    } else if d == 10 {
        if upper { 'A' } else { 'a' }
    } else if d == 11 {
        if upper { 'B' } else { 'b' }
    } else if d == 12 {
        if upper { 'C' } else { 'c' }
    } else if d == 13 {
        if upper { 'D' } else { 'd' }
    } else if d == 14 {
        if upper { 'E' } else { 'e' }
    } else {
        if upper { 'F' } else { 'f' }
    }
}

/// The digits of `n` in `base`, most significant first, without leading
/// zeros; the one digit `0` for zero.
pub open spec fn digits(n: nat, base: nat, upper: bool) -> Seq<char>
    decreases n,
{
    if base < 2 || n < base {
        seq![digit_char(n, upper)]
    } else {
        proof {
            assert(n / base < n) by (nonlinear_arith)
                requires
                    n >= base,
                    base >= 2,
            ;
        }
        digits(n / base, base, upper).push(digit_char(n % base, upper))
    }
}

/// `n` copies of `c`.
pub open spec fn repeat(c: char, n: nat) -> Seq<char> {
    Seq::new(n, |i: int| c)
}

/// `t` within a field that is `room` characters wider than `t`.
pub open spec fn pad(t: Seq<char>, room: nat, fill: char, align: Align) -> Seq<char> {
    match align {
        Align::Left => t + repeat(fill, room),
        Align::Right => repeat(fill, room) + t,
        Align::Center => repeat(fill, room / 2) + t + repeat(fill, (room - room / 2) as nat),
    }
}

/// A number, written as its sign and prefix `head` and its digits `body`,
/// in the field that `spec` describes. Zero padding goes between the two.
pub open spec fn pad_number(head: Seq<char>, body: Seq<char>, spec: FormatSpec) -> Seq<char> {
    let len = head.len() + body.len();
    match spec.width {
        Some(w) if w > len => if spec.zero {
            head + repeat('0', (w - len) as nat) + body
        } else {
            pad(
                head + body,
                (w - len) as nat,
                spec.fill,
                match spec.align {
                    Some(a) => a,
                    None => Align::Right,
                },
            )
        },
        _ => head + body,
    }
}

/// A text in the field that `spec` describes: cut to the precision, then
/// padded to the width.
pub open spec fn pad_text(t: Seq<char>, spec: FormatSpec) -> Seq<char> {
    let cut = match spec.precision {
        Some(p) if p < t.len() => t.take(p as int),
        _ => t,
    };
    match spec.width {
        Some(w) if w > cut.len() => pad(
            cut,
            (w - cut.len()) as nat,
            spec.fill,
            match spec.align {
                Some(a) => a,
                None => Align::Left,
            },
        ),
        _ => cut,
    }
}

/// The base that a style writes integers in.
pub open spec fn base_of(style: Style) -> nat {
    match style {
        Style::Display | Style::Debug => 10,
        Style::LowerHex | Style::UpperHex | Style::LowerHexDebug | Style::UpperHexDebug => 16,
        Style::Octal => 8,
        Style::Binary => 2,
    }
}

/// What the alternate flag puts before the digits.
pub open spec fn prefix_of(style: Style) -> Seq<char> {
    match style {
        Style::Display | Style::Debug => Seq::empty(),
        Style::LowerHex | Style::UpperHex | Style::LowerHexDebug | Style::UpperHexDebug => seq![
            '0',
            'x',
        ],
        Style::Octal => seq!['0', 'o'],
        Style::Binary => seq!['0', 'b'],
    }
}

/// The number whose digits are written for `v`: its magnitude in decimal,
/// its sixty-four bits read as unsigned in every other base.
pub open spec fn magnitude(v: i64, style: Style) -> nat {
    if v >= 0 {
        v as nat
    } else if base_of(style) == 10 {
        (-v) as nat
    } else {
        (v + 0x1_0000_0000_0000_0000) as nat
    }
}

/// The sign and prefix that go before the digits of `v`.
pub open spec fn head_of(v: i64, spec: FormatSpec) -> Seq<char> {
    let sign: Seq<char> = if v < 0 && base_of(spec.style) == 10 {
        seq!['-']
    } else if spec.plus {
        seq!['+']
    } else {
        Seq::empty()
    };
    if spec.alternate {
        sign + prefix_of(spec.style)
    } else {
        sign
    }
}

/// An integer as `spec` asks for it.
pub open spec fn integer_text(v: i64, spec: FormatSpec) -> Seq<char> {
    pad_number(
        head_of(v, spec),
        digits(
            magnitude(v, spec.style),
            base_of(spec.style),
            spec.style == Style::UpperHex || spec.style == Style::UpperHexDebug,
        ),
        spec,
    )
}

/// The default representation of a boolean.
pub open spec fn bool_text(b: bool) -> Seq<char> {
    if b {
        seq!['t', 'r', 'u', 'e']
    } else {
        seq!['f', 'a', 'l', 's', 'e']
    }
}

/// The host's debug representation of a text: quoted, with what cannot be
/// shown as it is escaped.
pub uninterp spec fn debug_text(s: Seq<char>) -> Seq<char>;

/// Whether the style is one of the debug styles.
pub open spec fn is_debug(style: Style) -> bool {
    style == Style::Debug || style == Style::LowerHexDebug || style == Style::UpperHexDebug
}

/// The value as `spec` asks for it.
pub open spec fn apply(value: Value, spec: FormatSpec) -> Result<Seq<char>, FormatError> {
    match value {
        Value::Int(v) => Ok(integer_text(v, spec)),
        Value::Bool(b) => if spec.style == Style::Display || is_debug(spec.style) {
            Ok(pad_text(bool_text(b), spec))
        } else {
            Err(FormatError::NotApplicable)
        },
        Value::Text(t) => if spec.style == Style::Display {
            Ok(pad_text(t@, spec))
        } else if is_debug(spec.style) {
            Ok(debug_text(t@))
        } else {
            Err(FormatError::NotApplicable)
        },
        _ => Err(FormatError::NotApplicable),
    }
}

/// The text of `value` under the specifier `spec`; under no specifier, its
/// default representation.
pub open spec fn formatted(value: Value, spec: Option<Seq<char>>) -> Result<
    Seq<char>,
    FormatError,
> {
    match spec {
        None => apply(value, plain()),
        Some(s) => match parse_format(s) {
            Some(f) => apply(value, f),
            None => Err(FormatError::BadSpecifier),
        },
    }
}

/// `<str as Debug>::fmt`, reached through `format!`: the result is the
/// host's debug representation of the text, which depends on the text alone.
#[verifier::external_body]
fn host_debug(s: &str) -> (r: String)
    ensures
        r@ == debug_text(s@),
{
    format!("{:?}", s)
}

fn digit(d: u64, upper: bool) -> (c: char)
    requires
        d < 16,
    ensures
        c == digit_char(d as nat, upper),
{
    if d == 0 {
        '0'
    } else if d == 1 {
        '1'
    } else if d == 2 {
        '2'
    } else if d == 3 {
        '3'
    } else if d == 4 {
        '4'
    } else if d == 5 {
        '5'
    } else if d == 6 {
        '6'
    } else if d == 7 {
        '7'
    } else if d == 8 {
        '8'
    } else if d == 9 {
        '9'
    } else if d == 10 {
        if upper { 'A' } else { 'a' }
    } else if d == 11 {
        if upper { 'B' } else { 'b' }
    } else if d == 12 {
        if upper { 'C' } else { 'c' }
    } else if d == 13 {
        if upper { 'D' } else { 'd' }
    } else if d == 14 {
        if upper { 'E' } else { 'e' }
    } else {
        if upper { 'F' } else { 'f' }
    }
}

/// The digits of `n` in `base`, most significant first.
fn digits_of(n: u64, base: u64, upper: bool) -> (out: Vec<char>)
    requires
        2 <= base <= 16,
    ensures
        out@ == digits(n as nat, base as nat, upper),
{
    let mut low_first: Vec<char> = Vec::new();
    let mut m: u64 = n;
    while m >= base
        invariant
            2 <= base <= 16,
            digits(n as nat, base as nat, upper) == digits(m as nat, base as nat, upper)
                + low_first@.reverse(),
        decreases m,
    {
        let ghost before = low_first@;
        let c = digit(m % base, upper);
        low_first.push(c);
        proof {
            assert(low_first@.reverse() == seq![c] + before.reverse());
            assert(digits(m as nat, base as nat, upper) == digits(
                (m / base) as nat,
                base as nat,
                upper,
            ).push(c));
        }
        m = m / base;
    }
    let ghost before = low_first@;
    let c = digit(m, upper);
    low_first.push(c);
    assert(low_first@.reverse() == seq![c] + before.reverse());
    let mut out: Vec<char> = Vec::new();
    let mut k: usize = low_first.len();
    while k > 0
        invariant
            k <= low_first.len(),
            out@ == low_first@.reverse().take(low_first.len() - k),
        decreases k,
    {
        k -= 1;
        out.push(low_first[k]);
    }
    assert(low_first@.reverse().take(low_first.len() as int) == low_first@.reverse());
    out
}

/// Appends `n` copies of `c` to `out`.
fn push_repeat(out: &mut Vec<char>, c: char, n: usize)
    ensures
        final(out)@ == old(out)@ + repeat(c, n as nat),
{
    let mut i: usize = 0;
    while i < n
        invariant
            i <= n,
            out@ == old(out)@ + repeat(c, i as nat),
        decreases n - i,
    {
        out.push(c);
        i += 1;
    }
}

fn padded(t: &Vec<char>, room: usize, fill: char, align: Align) -> (out: Vec<char>)
    ensures
        out@ == pad(t@, room as nat, fill, align),
{
    let mut out: Vec<char> = Vec::new();
    match align {
        Align::Left => {
            append_chars(&mut out, t);
            push_repeat(&mut out, fill, room);
        },
        Align::Right => {
            push_repeat(&mut out, fill, room);
            append_chars(&mut out, t);
        },
        Align::Center => {
            push_repeat(&mut out, fill, room / 2);
            append_chars(&mut out, t);
            push_repeat(&mut out, fill, room - room / 2);
        },
    }
    out
}

fn padded_number(head: &Vec<char>, body: &Vec<char>, spec: &FormatSpec) -> (out: Vec<char>)
    ensures
        out@ == pad_number(head@, body@, *spec),
{
    let total: Option<usize> = head.len().checked_add(body.len());
    let mut whole: Vec<char> = Vec::new();
    append_chars(&mut whole, head);
    match (spec.width, total) {
        (Some(w), Some(len)) if w > len => {
            if spec.zero {
                push_repeat(&mut whole, '0', w - len);
                append_chars(&mut whole, body);
                whole
            } else {
                append_chars(&mut whole, body);
                let align = match spec.align {
                    Some(a) => a,
                    None => Align::Right,
                };
                padded(&whole, w - len, spec.fill, align)
            }
        },
        _ => {
            append_chars(&mut whole, body);
            whole
        },
    }
}

fn padded_text(t: &Vec<char>, spec: &FormatSpec) -> (out: Vec<char>)
    ensures
        out@ == pad_text(t@, *spec),
{
    let mut cut: Vec<char> = Vec::new();
    match spec.precision {
        Some(p) if p < t.len() => {
            let mut i: usize = 0;
            while i < p
                invariant
                    i <= p < t.len(),
                    cut@ == t@.take(i as int),
                decreases p - i,
            {
                cut.push(t[i]);
                i += 1;
            }
        },
        _ => {
            append_chars(&mut cut, t);
        },
    }
    match spec.width {
        Some(w) if w > cut.len() => {
            let align = match spec.align {
                Some(a) => a,
                None => Align::Left,
            };
            padded(&cut, w - cut.len(), spec.fill, align)
        },
        _ => cut,
    }
}

fn integer_chars(v: i64, spec: &FormatSpec) -> (out: Vec<char>)
    ensures
        out@ == integer_text(v, *spec),
{
    let (base, upper): (u64, bool) = match spec.style {
        Style::Display | Style::Debug => (10, false),
        Style::LowerHex | Style::LowerHexDebug => (16, false),
        Style::UpperHex | Style::UpperHexDebug => (16, true),
        Style::Octal => (8, false),
        Style::Binary => (2, false),
    };
    let mag: u64 = if v >= 0 {
        v as u64
    } else if base == 10 {
        (-(v as i128)) as u64
    } else {
        ((v as i128) + 0x1_0000_0000_0000_0000i128) as u64
    };
    let mut head: Vec<char> = Vec::new();
    if v < 0 && base == 10 {
        head.push('-');
    } else if spec.plus {
        head.push('+');
    }
    if spec.alternate {
        match spec.style {
            Style::Display | Style::Debug => {},
            Style::LowerHex | Style::UpperHex | Style::LowerHexDebug | Style::UpperHexDebug => {
                head.push('0');
                head.push('x');
            },
            Style::Octal => {
                head.push('0');
                head.push('o');
            },
            Style::Binary => {
                head.push('0');
                head.push('b');
            },
        }
    }
    assert(head@ == head_of(v, *spec));
    let body = digits_of(mag, base, upper);
    padded_number(&head, &body, spec)
}

fn is_digit_char(c: char) -> (r: bool)
    ensures
        r == is_digit(c),
{
    '0' <= c && c <= '9'
}

fn align_for(c: char) -> (r: Option<Align>)
    ensures
        r == align_of(c),
{
    if c == '<' {
        Some(Align::Left)
    } else if c == '^' {
        Some(Align::Center)
    } else if c == '>' {
        Some(Align::Right)
    } else {
        None
    }
}

proof fn lemma_number_grows(s: Seq<char>, from: int, mid: int, to: int)
    requires
        from <= mid <= to,
    ensures
        number(s, from, mid) <= number(s, from, to),
    decreases to - mid,
{
    if mid < to {
        lemma_number_grows(s, from, mid, to - 1);
        assert(number(s, from, to - 1) <= number(s, from, to - 1) * 10) by (nonlinear_arith);
    }
}

/// Reads the decimal number that starts at `from`: where it ends, and its
/// value where that is within `MAX_FIELD`.
fn read_number(s: &Vec<char>, from: usize) -> (r: (usize, Option<usize>))
    requires
        from <= s.len(),
    ensures
        r.0 == digits_end(s@, from as int),
        from <= r.0 <= s.len(),
        match r.1 {
            Some(n) => n == number(s@, from as int, r.0 as int) && n <= MAX_FIELD,
            None => number(s@, from as int, r.0 as int) > MAX_FIELD,
        },
{
    let mut i: usize = from;
    let mut acc: Option<usize> = Some(0);
    while i < s.len() && is_digit_char(s[i])
        invariant
            from <= i <= s.len(),
            digits_end(s@, from as int) == digits_end(s@, i as int),
            match acc {
                Some(n) => n == number(s@, from as int, i as int) && n <= MAX_FIELD,
                None => number(s@, from as int, i as int) > MAX_FIELD,
            },
        decreases s.len() - i,
    {
        let d: usize = (s[i] as u32 - '0' as u32) as usize;
        proof {
            lemma_number_grows(s@, from as int, i as int, i + 1);
        }
        acc = match acc {
            Some(n) => if n * 10 + d <= MAX_FIELD {
                Some(n * 10 + d)
            } else {
                None
            },
            None => None,
        };
        i += 1;
    }
    (i, acc)
}

fn style_for(s: &Vec<char>, from: usize) -> (r: Option<Style>)
    requires
        from <= s.len(),
    ensures
        r == style_of(s@.subrange(from as int, s.len() as int)),
{
    let n: usize = s.len() - from;
    let ghost t = s@.subrange(from as int, s.len() as int);
    if n == 0 {
        Some(Style::Display)
    } else if n == 1 {
        let c = s[from];
        assert(t[0] == c);
        if c == '?' {
            Some(Style::Debug)
        } else if c == 'x' {
            Some(Style::LowerHex)
        } else if c == 'X' {
            Some(Style::UpperHex)
        } else if c == 'o' {
            Some(Style::Octal)
        } else if c == 'b' {
            Some(Style::Binary)
        } else {
            None
        }
    } else if n == 2 {
        let c = s[from];
        let d = s[from + 1];
        assert(t[0] == c && t[1] == d);
        if c == 'x' && d == '?' {
            Some(Style::LowerHexDebug)
        } else if c == 'X' && d == '?' {
            Some(Style::UpperHexDebug)
        } else {
            None
        }
    } else {
        None
    }
}

/// Takes a format specifier apart.
pub fn parse_specifier(text: &str) -> (r: Option<FormatSpec>)
    ensures
        r == parse_format(text@),
{
    let s = chars_of(text);
    let n: usize = s.len();
    let mut fill: char = ' ';
    let mut align: Option<Align> = None;
    let mut i: usize = 0;
    if n >= 2 && align_for(s[1]).is_some() {
        fill = s[0];
        align = align_for(s[1]);
        i = 2;
    } else if n >= 1 && align_for(s[0]).is_some() {
        align = align_for(s[0]);
        i = 1;
    }
    let plus: bool = i < n && s[i] == '+';
    if i < n && (s[i] == '+' || s[i] == '-') {
        i += 1;
    }
    let alternate: bool = i < n && s[i] == '#';
    if alternate {
        i += 1;
    }
    let zero: bool = i < n && s[i] == '0';
    if zero {
        i += 1;
    }
    let (width_end, width_value) = read_number(&s, i);
    let dotted: bool = width_end < n && s[width_end] == '.';
    let (end, precision_value) = if dotted {
        read_number(&s, width_end + 1)
    } else {
        (width_end, Some(0))
    };
    let style = style_for(&s, end);
    if dotted && end == width_end + 1 {
        return None;
    }
    match (style, width_value, precision_value) {
        (Some(style), Some(w), Some(p)) => Some(
            FormatSpec {
                fill,
                align,
                plus,
                alternate,
                zero,
                width: if width_end > i { Some(w) } else { None },
                precision: if dotted { Some(p) } else { None },
                style,
            },
        ),
        _ => None,
    }
}

fn apply_to(value: &Value, spec: &FormatSpec) -> (r: Result<String, FormatError>)
    ensures
        match r {
            Ok(t) => apply(*value, *spec) == Ok::<Seq<char>, FormatError>(t@),
            Err(e) => apply(*value, *spec) == Err::<Seq<char>, FormatError>(e),
        },
{
    let debug: bool = match spec.style {
        Style::Debug | Style::LowerHexDebug | Style::UpperHexDebug => true,
        _ => false,
    };
    let display: bool = match spec.style {
        Style::Display => true,
        _ => false,
    };
    match value {
        Value::Int(v) => {
            let out = integer_chars(*v, spec);
            Ok(string_of(&out))
        },
        Value::Bool(b) => {
            if display || debug {
                let mut t: Vec<char> = Vec::new();
                if *b {
                    t.push('t');
                    t.push('r');
                    t.push('u');
                    t.push('e');
                } else {
                    t.push('f');
                    t.push('a');
                    t.push('l');
                    t.push('s');
                    t.push('e');
                }
                assert(t@ == bool_text(*b));
                let out = padded_text(&t, spec);
                Ok(string_of(&out))
            } else {
                Err(FormatError::NotApplicable)
            }
        },
        Value::Text(t) => {
            if display {
                let chars = chars_of(t.as_str());
                let out = padded_text(&chars, spec);
                Ok(string_of(&out))
            } else if debug {
                Ok(host_debug(t.as_str()))
            } else {
                Err(FormatError::NotApplicable)
            }
        },
        _ => Err(FormatError::NotApplicable),
    }
}

/// Formats `value` under the specifier `spec`, or in its default
/// representation where there is none.
pub fn format_value(value: &Value, spec: Option<&str>) -> (r: Result<String, FormatError>)
    ensures
        match r {
            Ok(t) => formatted(*value, opt_view(spec)) == Ok::<Seq<char>, FormatError>(t@),
            Err(e) => formatted(*value, opt_view(spec)) == Err::<Seq<char>, FormatError>(e),
        },
{
    match spec {
        None => {
            let f = FormatSpec {
                fill: ' ',
                align: None,
                plus: false,
                alternate: false,
                zero: false,
                width: None,
                precision: None,
                style: Style::Display,
            };
            apply_to(value, &f)
        },
        Some(s) => match parse_specifier(s) {
            Some(f) => apply_to(value, &f),
            None => Err(FormatError::BadSpecifier),
        },
    }
}

/// The characters of an optional text.
pub open spec fn opt_view(s: Option<&str>) -> Option<Seq<char>> {
    match s {
        Some(t) => Some(t@),
        None => None,
    }
}

} // verus!
