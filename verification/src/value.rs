//! Runtime values and the scope of names that a render call evaluates
//! expressions against.
//!
//! The expression language of a template is opaque to this crate: an
//! expression is looked up by its text, and a pattern either names the value
//! it is bound to or is answered by the value itself, where the host has
//! recorded which patterns match it.

use vstd::prelude::*;

verus! {

/// A value that the host hands to a render call.
#[derive(Debug, PartialEq, Eq)]
pub enum Value {
    Int(i64),
    Bool(bool),
    Text(String),
    /// The items of an iterable, in iteration order.
    List(Vec<Value>),
    /// The verdict of the host's pattern facility on a value: each pattern
    /// that matches it, with the names that the pattern binds.
    Cases(Vec<Case>),
}

/// One pattern that matches a value, and what it binds.
#[derive(Debug, PartialEq, Eq)]
pub struct Case {
    pub pattern: String,
    pub bindings: Vec<Binding>,
}

/// A name, or the text of an expression, and the value it stands for.
#[derive(Debug, PartialEq, Eq)]
pub struct Binding {
    pub name: String,
    pub value: Value,
}

/// The bindings that a render call starts from. A later binding of a name
/// hides an earlier one.
#[derive(Debug, PartialEq, Eq)]
pub struct Context {
    pub bindings: Vec<Binding>,
}

/// A binding as the contracts see it.
pub struct Bound {
    pub name: Seq<char>,
    pub value: Value,
}

/// A binding held by reference during a render call.
pub struct Entry<'a> {
    pub name: &'a String,
    pub value: &'a Value,
}

pub open spec fn bound_of(b: Binding) -> Bound {
    Bound { name: b.name@, value: b.value }
}

/// The bindings as the contracts see them, in order.
pub open spec fn bounds_of(bindings: Seq<Binding>) -> Seq<Bound> {
    bindings.map_values(|b: Binding| bound_of(b))
}

/// The scope that the entries hold, the latest binding last.
pub open spec fn scope_of(entries: Seq<Entry>) -> Seq<Bound> {
    entries.map_values(|e: Entry| Bound { name: e.name@, value: *e.value })
}

/// The value of the latest binding of `key` in `scope`, if there is one.
pub open spec fn lookup(scope: Seq<Bound>, key: Seq<char>) -> Option<Value>
    decreases scope.len(),
{
    if scope.len() == 0 {
        None
    } else if scope.last().name == key {
        Some(scope.last().value)
    } else {
        lookup(scope.drop_last(), key)
    }
}

/// The index of the first case at or after `from` whose pattern is `pattern`.
pub open spec fn find_case(cases: Seq<Case>, pattern: Seq<char>, from: int) -> Option<int>
    decreases cases.len() - from,
{
    if from < 0 || from >= cases.len() {
        None
    } else if cases[from].pattern@ == pattern {
        Some(from)
    } else {
        find_case(cases, pattern, from + 1)
    }
}

/// The scope after matching `value` against `pattern`, or `None` where the
/// pattern does not match.
///
/// A case table answers for itself: the pattern matches if the table lists
/// it, and binds what the table says. Any other value is matched by every
/// pattern, which then names the value.
pub open spec fn bind(scope: Seq<Bound>, pattern: Seq<char>, value: Value) -> Option<Seq<Bound>> {
    match value {
        Value::Cases(cases) => match find_case(cases@, pattern, 0) {
            Some(i) => Some(scope + bounds_of(cases@[i].bindings@)),
            None => None,
        },
        _ => Some(scope.push(Bound { name: pattern, value })),
    }
}

impl Context {
    /// The scope that the context describes.
    pub open spec fn view(&self) -> Seq<Bound> {
        bounds_of(self.bindings@)
    }

    /// A context without bindings.
    pub fn new() -> (c: Context)
        ensures
            c@ == Seq::<Bound>::empty(),
    {
        Context { bindings: Vec::new() }
    }

    /// Binds `name` to `value`, hiding any earlier binding of `name`.
    pub fn set(&mut self, name: &str, value: Value)
        ensures
            final(self)@ == old(self)@.push(Bound { name: name@, value }),
            lookup(final(self)@, name@) == Some(value),
    {
        self.bindings.push(Binding { name: name.to_owned(), value });
    }

    /// The value that `key` stands for.
    pub fn get(&self, key: &String) -> (r: Option<&Value>)
        ensures
            match r {
                Some(v) => lookup(self@, key@) == Some(*v),
                None => lookup(self@, key@) is None,
            },
    {
        let mut i: usize = self.bindings.len();
        assert(self@.take(i as int) == self@);
        while i > 0
            invariant
                i <= self.bindings.len(),
                lookup(self@, key@) == lookup(self@.take(i as int), key@),
            decreases i,
        {
            i -= 1;
            if self.bindings[i].name == *key {
                return Some(&self.bindings[i].value);
            }
            assert(self@.take(i + 1).drop_last() == self@.take(i as int));
        }
        None
    }
}

/// Pushes `bindings` onto `scope`, in order.
pub(crate) fn extend<'a>(scope: &mut Vec<Entry<'a>>, bindings: &'a Vec<Binding>)
    ensures
        scope_of(final(scope)@) == scope_of(old(scope)@) + bounds_of(bindings@),
        final(scope)@.len() == old(scope)@.len() + bindings@.len(),
        final(scope)@.take(old(scope)@.len() as int) == old(scope)@,
{
    let mut i: usize = 0;
    assert(scope_of(scope@) == scope_of(old(scope)@) + bounds_of(bindings@.take(0)));
    assert(scope@.take(old(scope)@.len() as int) == old(scope)@);
    while i < bindings.len()
        invariant
            i <= bindings.len(),
            scope@.len() == old(scope)@.len() + i,
            scope@.take(old(scope)@.len() as int) == old(scope)@,
            scope_of(scope@) == scope_of(old(scope)@) + bounds_of(bindings@.take(i as int)),
        decreases bindings.len() - i,
    {
        let ghost before = scope@;
        scope.push(Entry { name: &bindings[i].name, value: &bindings[i].value });
        proof {
            assert(scope_of(scope@) == scope_of(before).push(bound_of(bindings@[i as int])));
            assert(bounds_of(bindings@.take(i + 1)) == bounds_of(bindings@.take(i as int)).push(
                bound_of(bindings@[i as int]),
            ));
            assert(scope@.take(old(scope)@.len() as int) == before.take(old(scope)@.len() as int));
        }
        i += 1;
    }
    assert(bindings@.take(bindings@.len() as int) == bindings@);
}

/// The value of the latest binding of `key` in `scope`.
pub(crate) fn resolve<'a>(scope: &Vec<Entry<'a>>, key: &String) -> (r: Option<&'a Value>)
    ensures
        match r {
            Some(v) => lookup(scope_of(scope@), key@) == Some(*v),
            None => lookup(scope_of(scope@), key@) is None,
        },
{
    let ghost whole = scope_of(scope@);
    let mut i: usize = scope.len();
    assert(whole.take(i as int) == whole);
    while i > 0
        invariant
            i <= scope.len(),
            whole == scope_of(scope@),
            lookup(whole, key@) == lookup(whole.take(i as int), key@),
        decreases i,
    {
        i -= 1;
        if *scope[i].name == *key {
            return Some(scope[i].value);
        }
        assert(whole.take(i + 1).drop_last() == whole.take(i as int));
    }
    None
}

/// Matches `value` against `pattern` and, where it matches, pushes what the
/// pattern binds onto `scope`.
pub(crate) fn bind_in<'a>(scope: &mut Vec<Entry<'a>>, pattern: &'a String, value: &'a Value) -> (matched: bool)
    ensures
        match bind(scope_of(old(scope)@), pattern@, *value) {
            Some(s) => matched && scope_of(final(scope)@) == s
                && final(scope)@.len() >= old(scope)@.len()
                && final(scope)@.take(old(scope)@.len() as int) == old(scope)@,
            None => !matched && final(scope)@ == old(scope)@,
        },
{
    match value {
        Value::Cases(cases) => {
            let mut i: usize = 0;
            while i < cases.len()
                invariant
                    i <= cases.len(),
                    scope@ == old(scope)@,
                    *value == Value::Cases(*cases),
                    find_case(cases@, pattern@, 0) == find_case(cases@, pattern@, i as int),
                decreases cases.len() - i,
            {
                if cases[i].pattern == *pattern {
                    extend(scope, &cases[i].bindings);
                    return true;
                }
                i += 1;
            }
            false
        },
        _ => {
            scope.push(Entry { name: pattern, value });
            assert(scope_of(scope@) == scope_of(old(scope)@).push(Bound { name: pattern@, value: *value }));
            assert(scope@.take(old(scope)@.len() as int) == old(scope)@);
            true
        },
    }
}

} // verus!
