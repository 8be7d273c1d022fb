//! What comes back when the far side rejects: an error, or any value at all.
use crate::value::{entries_find, entries_get, last_pair, lemma_first_key_get, Value};
use vstd::prelude::*;
use vstd::string::StringExecFns;

verus! {

/// Something that came back as a rejection. A thrown scalar, `null` or plain
/// object arrives as itself rather than being turned into an error.
#[derive(Clone, Debug, PartialEq)]
pub enum Thrown {
    Error { name: String, message: String, stack: String },
    Value(Value),
}

/// The stack an error built here carries.
pub open spec fn stack_text(name: Seq<char>, message: Seq<char>) -> Seq<char> {
    name + ": "@ + message + "\n    at <comlink>"@
}

/// `t` is an error with these name, message and stack.
pub open spec fn is_error_with(t: Thrown, name: Seq<char>, message: Seq<char>, stack: Seq<char>) -> bool {
    t matches Thrown::Error { name: n, message: m, stack: s } && n@ == name && m@ == message && s@
        == stack
}

fn stack_for(name: &str, message: &str) -> (r: String)
    ensures
        r@ == stack_text(name@, message@),
{
    let mut s = String::from_str(name);
    s.append(": ");
    s.append(message);
    s.append("\n    at <comlink>");
    s
}

impl Thrown {
    /// An `Error` with the given message.
    pub fn error(message: &str) -> (r: Thrown)
        ensures
            is_error_with(r, "Error"@, message@, stack_text("Error"@, message@)),
    {
        Thrown::Error {
            stack: stack_for("Error", message),
            name: String::from_str("Error"),
            message: String::from_str(message),
        }
    }

    /// A `TypeError` with the given message.
    pub fn type_error(message: &str) -> (r: Thrown)
        ensures
            is_error_with(r, "TypeError"@, message@, stack_text("TypeError"@, message@)),
    {
        Thrown::Error {
            stack: stack_for("TypeError", message),
            name: String::from_str("TypeError"),
            message: String::from_str(message),
        }
    }

    /// An error carrying a stack the caller chose.
    pub fn error_with_stack(message: &str, stack: &str) -> (r: Thrown)
        ensures
            is_error_with(r, "Error"@, message@, stack@),
    {
        Thrown::Error {
            name: String::from_str("Error"),
            message: String::from_str(message),
            stack: String::from_str(stack),
        }
    }

    pub fn message(&self) -> (r: Option<&str>)
        ensures
            r is Some <==> self is Error,
            r matches Some(m) ==> self matches Thrown::Error { message, .. } && m@ == message@,
    {
        match self {
            Thrown::Error { message, .. } => Some(message.as_str()),
            Thrown::Value(_) => None,
        }
    }

    pub fn name(&self) -> (r: Option<&str>)
        ensures
            r is Some <==> self is Error,
            r matches Some(m) ==> self matches Thrown::Error { name, .. } && m@ == name@,
    {
        match self {
            Thrown::Error { name, .. } => Some(name.as_str()),
            Thrown::Value(_) => None,
        }
    }

    pub fn stack(&self) -> (r: Option<&str>)
        ensures
            r is Some <==> self is Error,
            r matches Some(m) ==> self matches Thrown::Error { stack, .. } && m@ == stack@,
    {
        match self {
            Thrown::Error { stack, .. } => Some(stack.as_str()),
            Thrown::Value(_) => None,
        }
    }

    pub fn value(&self) -> (r: Option<&Value>)
        ensures
            r is Some <==> self is Value,
            r matches Some(v) ==> *self == Thrown::Value(*v),
    {
        match self {
            Thrown::Value(v) => Some(v),
            Thrown::Error { .. } => None,
        }
    }

    pub fn is_error(&self) -> (r: bool)
        ensures
            r == (self is Error),
    {
        match self {
            Thrown::Error { .. } => true,
            Thrown::Value(_) => false,
        }
    }
}

// ------------------------------------------------------------------------- //
// Carrying a rejection over the wire                                        //
// ------------------------------------------------------------------------- //

/// A property of an object value; `None` for anything else.
pub open spec fn property(v: Value, key: Seq<char>) -> Option<Value> {
    match v {
        Value::Object(entries) => entries_get(entries@, key),
        _ => None,
    }
}

/// The text of a string property, or `default` when there is none.
pub open spec fn text_or(v: Option<Value>, default: Seq<char>) -> Seq<char> {
    match v {
        Some(Value::String(s)) => s@,
        _ => default,
    }
}

/// `v` is how `t` travels: `{ isError, value }`, where an error's value holds
/// its message, name and stack, and any other thrown value is itself.
pub open spec fn encodes(t: Thrown, v: Value) -> bool {
    match t {
        Thrown::Error { name, message, stack } => {
            &&& property(v, "isError"@) == Some(Value::Bool(true))
            &&& property(v, "value"@) matches Some(inner) && {
                &&& property(inner, "message"@) == Some(Value::String(message))
                &&& property(inner, "name"@) == Some(Value::String(name))
                &&& property(inner, "stack"@) == Some(Value::String(stack))
            }
        },
        Thrown::Value(x) => {
            &&& property(v, "isError"@) == Some(Value::Bool(false))
            &&& property(v, "value"@) == Some(x)
        },
    }
}

/// `t` is what arrives for `v`. A missing or non-boolean `isError` counts as
/// false, a missing `value` as `undefined`; an error's missing name is
/// `"Error"` and its missing message or stack empty.
pub open spec fn decodes(v: Value, t: Thrown) -> bool {
    let flag = property(v, "isError"@) == Some(Value::Bool(true));
    let inner = match property(v, "value"@) {
        Some(x) => x,
        None => Value::Undefined,
    };
    if flag {
        is_error_with(
            t,
            text_or(property(inner, "name"@), "Error"@),
            text_or(property(inner, "message"@), ""@),
            text_or(property(inner, "stack"@), ""@),
        )
    } else {
        t == Thrown::Value(inner)
    }
}

/// `a` and `b` are the same rejection: errors with the same texts, or the
/// same thrown value.
pub open spec fn same_thrown(a: Thrown, b: Thrown) -> bool {
    match (a, b) {
        (
            Thrown::Error { name: n1, message: m1, stack: s1 },
            Thrown::Error { name: n2, message: m2, stack: s2 },
        ) => n1@ == n2@ && m1@ == m2@ && s1@ == s2@,
        (Thrown::Value(x), Thrown::Value(y)) => x == y,
        _ => false,
    }
}

proof fn lemma_key_names()
    ensures
        "isError"@ != "value"@,
        "message"@ != "name"@,
        "message"@ != "stack"@,
        "name"@ != "stack"@,
{
    reveal_strlit("isError");
    reveal_strlit("value");
    reveal_strlit("message");
    reveal_strlit("name");
    reveal_strlit("stack");
    assert("isError"@.len() != "value"@.len());
    assert("message"@.len() != "name"@.len());
    assert("message"@.len() != "stack"@.len());
    assert("name"@.len() != "stack"@.len());
}

proof fn lemma_last_pair_of_two(pairs: Seq<(&str, Value)>, k: Seq<char>)
    requires
        pairs.len() == 2,
    ensures
        last_pair(pairs, k) == if k == pairs[1].0@ {
            Some(pairs[1].1)
        } else if k == pairs[0].0@ {
            Some(pairs[0].1)
        } else {
            None
        },
{
    reveal_with_fuel(last_pair, 3);
    assert(pairs.drop_last().drop_last().len() == 0);
}

proof fn lemma_last_pair_of_three(pairs: Seq<(&str, Value)>, k: Seq<char>)
    requires
        pairs.len() == 3,
    ensures
        last_pair(pairs, k) == if k == pairs[2].0@ {
            Some(pairs[2].1)
        } else if k == pairs[1].0@ {
            Some(pairs[1].1)
        } else if k == pairs[0].0@ {
            Some(pairs[0].1)
        } else {
            None
        },
{
    lemma_last_pair_of_two(pairs.drop_last(), k);
}

/// Serialises a rejection the way the built-in throw handler does.
pub fn encode_thrown(t: Thrown) -> (r: Value)
    ensures
        encodes(t, r),
{
    proof {
        lemma_key_names();
    }
    match t {
        Thrown::Error { name, message, stack } => {
            let ghost (n, m, st) = (name, message, stack);
            let pairs = vec![
                ("message", Value::String(message)),
                ("name", Value::String(name)),
                ("stack", Value::String(stack)),
            ];
            proof {
                lemma_last_pair_of_three(pairs@, "message"@);
                lemma_last_pair_of_three(pairs@, "name"@);
                lemma_last_pair_of_three(pairs@, "stack"@);
            }
            let inner = Value::object(pairs);
            let outer = vec![("isError", Value::Bool(true)), ("value", inner)];
            proof {
                lemma_last_pair_of_two(outer@, "isError"@);
                lemma_last_pair_of_two(outer@, "value"@);
            }
            Value::object(outer)
        },
        Thrown::Value(v) => {
            let outer = vec![("isError", Value::Bool(false)), ("value", v)];
            proof {
                lemma_last_pair_of_two(outer@, "isError"@);
                lemma_last_pair_of_two(outer@, "value"@);
            }
            Value::object(outer)
        },
    }
}

/// A string property's text, or `default`.
fn text_property(v: &Value, key: &str, default: &str) -> (r: String)
    ensures
        r@ == text_or(property(*v, key@), default@),
{
    match v.get(key) {
        Some(found) => match found.as_str() {
            Some(s) => s.to_owned(),
            None => default.to_owned(),
        },
        None => default.to_owned(),
    }
}

/// Deserialises a rejection the way the built-in throw handler does.
pub fn decode_thrown(value: Value) -> (r: Thrown)
    ensures
        decodes(value, r),
{
    let flag = match value.get("isError") {
        Some(v) => match v.as_bool() {
            Some(b) => b,
            None => false,
        },
        None => false,
    };
    let ghost whole = value;
    let inner = match value {
        Value::Object(mut entries) => match entries_find(&entries, "value") {
            Some(i) => {
                proof {
                    lemma_first_key_get(entries@, "value"@, i as int);
                }
                entries.remove(i).1
            },
            None => Value::Undefined,
        },
        _ => Value::Undefined,
    };
    assert(inner == match property(whole, "value"@) {
        Some(x) => x,
        None => Value::Undefined,
    });
    if flag {
        Thrown::Error {
            message: text_property(&inner, "message", ""),
            name: text_property(&inner, "name", "Error"),
            stack: text_property(&inner, "stack", ""),
        }
    } else {
        Thrown::Value(inner)
    }
}

/// A rejection survives the trip: decoding what encoding produced gives the
/// same error or the same thrown value back.
pub proof fn lemma_thrown_round_trip(t: Thrown, v: Value, back: Thrown)
    requires
        encodes(t, v),
        decodes(v, back),
    ensures
        same_thrown(back, t),
{
}

} // verus!
