//! JSON values.

use crate::decimal::decimal;
use serde_json::Value;
use vstd::prelude::*;

verus! {

/// A JSON value of the crate `serde_json`.
#[verifier::external_type_specification]
#[verifier::external_body]
pub struct ExValue(serde_json::Value);

/// The JSON text of a value, without white space between its parts. No two values
/// that differ have the same text.
pub uninterp spec fn json_text(value: serde_json::Value) -> Seq<char>;

/// The JSON text of the value that a text stands for, or `None` where the text is no
/// JSON.
pub uninterp spec fn parsed(text: Seq<char>) -> Option<Seq<char>>;

/// The JSON text of the member that an object has under a key, given the object's
/// JSON text. `None` where it has no such member, and for a value that is no object.
pub uninterp spec fn member_of(text: Seq<char>, key: Seq<char>) -> Option<Seq<char>>;

/// A hexadecimal digit.
pub open spec fn hex(d: int) -> char {
    if d < 10 {
        (48 + d) as char
    } else {
        (87 + d) as char
    }
}

/// How a character is written inside a JSON string.
pub open spec fn escape(c: char) -> Seq<char> {
    if c == '"' {
        seq!['\\', '"']
    } else if c == '\\' {
        seq!['\\', '\\']
    } else if c == '\u{8}' {
        seq!['\\', 'b']
    } else if c == '\u{9}' {
        seq!['\\', 't']
    } else if c == '\u{a}' {
        seq!['\\', 'n']
    } else if c == '\u{c}' {
        seq!['\\', 'f']
    } else if c == '\u{d}' {
        seq!['\\', 'r']
    } else if ' ' > c {
        seq!['\\', 'u', '0', '0', hex(c as int / 16), hex(c as int % 16)]
    } else {
        seq![c]
    }
}

/// How a text is written inside a JSON string.
pub open spec fn escaped(text: Seq<char>) -> Seq<char>
    decreases text.len(),
{
    if text.len() == 0 {
        Seq::empty()
    } else {
        escape(text[0]) + escaped(text.drop_first())
    }
}

/// The JSON text of a string.
pub open spec fn quoted(text: Seq<char>) -> Seq<char> {
    seq!['"'] + escaped(text) + seq!['"']
}

/// Texts, with a comma between them.
pub open spec fn joined(texts: Seq<Seq<char>>) -> Seq<char>
    decreases texts.len(),
{
    if texts.len() == 0 {
        Seq::empty()
    } else if texts.len() == 1 {
        texts[0]
    } else {
        joined(texts.drop_last()) + seq![','] + texts.last()
    }
}

/// The JSON text of an array, given those of its items.
pub open spec fn array_text(items: Seq<Seq<char>>) -> Seq<char> {
    seq!['['] + joined(items) + seq![']']
}

/// The JSON text of an object, given its keys and the JSON texts of its members.
pub open spec fn object_text(members: Seq<(Seq<char>, Seq<char>)>) -> Seq<char> {
    seq!['{'] + joined(
        members.map_values(|m: (Seq<char>, Seq<char>)| quoted(m.0) + seq![':'] + m.1),
    ) + seq!['}']
}

/// The JSON text of a whole number.
pub open spec fn integer_text(n: int) -> Seq<char> {
    if n < 0 {
        seq!['-'] + decimal((-n) as nat)
    } else {
        decimal(n as nat)
    }
}

/// `a` comes before `b` in the order of strings.
pub open spec fn precedes(a: Seq<char>, b: Seq<char>) -> bool
    decreases a.len(),
{
    if b.len() == 0 {
        false
    } else if a.len() == 0 {
        true
    } else if a[0] == b[0] {
        precedes(a.drop_first(), b.drop_first())
    } else {
        a[0] < b[0]
    }
}

/// Each key comes before those behind it.
pub open spec fn keys_ascend(members: Seq<(Seq<char>, Seq<char>)>) -> bool {
    forall|i: int, j: int|
        0 <= i < j < members.len() ==> precedes((#[trigger] members[i]).0, (
        #[trigger] members[j]).0)
}

/// Keys, and the JSON texts of the values under them.
pub open spec fn members_view(members: Seq<(String, Value)>) -> Seq<(Seq<char>, Seq<char>)> {
    members.map_values(|m: (String, Value)| (m.0@, json_text(m.1)))
}

/// The text holds no control character, and so no line break.
pub open spec fn one_line(text: Seq<char>) -> bool {
    forall|i: int| 0 <= i < text.len() ==> ' ' <= #[trigger] text[i]
}

/// Calls `serde_json::from_str` for a `Value`. Whether a text is JSON, and which
/// value it stands for, are functions of the text.
#[verifier::external_body]
pub(crate) fn parse(text: &str) -> (value: Option<Value>)
    ensures
        match value {
            Some(value) => parsed(text@) == Some(json_text(value)),
            None => parsed(text@) is None,
        },
{
    serde_json::from_str::<Value>(text).ok()
}

/// Calls `serde_json::Value::get` with a string. The member is a function of the
/// value and the key.
#[verifier::external_body]
pub(crate) fn member(value: &Value, key: &str) -> (r: Option<Value>)
    ensures
        match r {
            Some(r) => member_of(json_text(*value), key@) == Some(json_text(r)),
            None => member_of(json_text(*value), key@) is None,
        },
{
    value.get(key).cloned()
}

/// Calls `serde_json::Value::as_str`. It gives the string that the value is, or
/// `None` where the value is no string: the JSON text of a string, and of no other
/// value, is the string in quotes, with some characters escaped.
#[verifier::external_body]
pub(crate) fn as_string(value: &Value) -> (r: Option<String>)
    ensures
        match r {
            Some(r) => json_text(*value) == quoted(r@),
            None => forall|text: Seq<char>| json_text(*value) != #[trigger] quoted(text),
        },
{
    value.as_str().map(str::to_owned)
}

/// Takes the value `serde_json::Value::Null`.
#[verifier::external_body]
pub(crate) fn null() -> (value: Value)
    ensures
        json_text(value) == "null"@,
{
    Value::Null
}

/// Calls `From<bool>` for `serde_json::Value`.
#[verifier::external_body]
pub(crate) fn boolean(b: bool) -> (value: Value)
    ensures
        json_text(value) == if b {
            "true"@
        } else {
            "false"@
        },
{
    Value::from(b)
}

/// Calls `From<i64>` for `serde_json::Value`: the number in decimal.
#[verifier::external_body]
pub(crate) fn integer(n: i64) -> (value: Value)
    ensures
        json_text(value) == integer_text(n as int),
{
    Value::from(n)
}

/// Calls `From<&str>` for `serde_json::Value`: the string in quotes, with the
/// characters escaped that `serde_json` escapes.
#[verifier::external_body]
pub(crate) fn string(text: &str) -> (value: Value)
    ensures
        json_text(value) == quoted(text@),
{
    Value::from(text)
}

/// Calls `From<Vec<Value>>` for `serde_json::Value`: the items in their order.
#[verifier::external_body]
pub(crate) fn array(items: Vec<Value>) -> (value: Value)
    ensures
        json_text(value) == array_text(items@.map_values(|item: Value| json_text(item))),
{
    Value::from(items)
}

/// Calls `FromIterator<(String, Value)>` for `serde_json::Value`: an object with
/// these members. It writes them in the order of their keys; here they come in that
/// order, and no key comes twice.
#[verifier::external_body]
pub(crate) fn object(members: Vec<(String, Value)>) -> (value: Value)
    requires
        keys_ascend(members_view(members@)),
    ensures
        json_text(value) == object_text(members_view(members@)),
{
    Value::from_iter(members)
}

/// Calls `serde_json::to_string`, which fails for no `Value`. It escapes the control
/// characters in strings and writes none itself.
#[verifier::external_body]
pub(crate) fn to_text(value: &Value) -> (text: String)
    ensures
        text@ == json_text(*value),
        one_line(text@),
{
    serde_json::to_string(value).unwrap()
}

/// The string that a value is, given its JSON text; `None` where there is no value,
/// and where the value is no string.
pub open spec fn string_in(text: Option<Seq<char>>) -> Option<Seq<char>> {
    if exists|s: Seq<char>| text == Some(#[trigger] quoted(s)) {
        Some(choose|s: Seq<char>| text == Some(#[trigger] quoted(s)))
    } else {
        None
    }
}

/// The member that a value has under a key, where there is a value.
pub open spec fn member_in(text: Option<Seq<char>>, key: Seq<char>) -> Option<Seq<char>> {
    match text {
        Some(text) => member_of(text, key),
        None => None,
    }
}

proof fn lemma_escape_differs(a: char, b: char, x: Seq<char>, y: Seq<char>)
    requires
        escape(a) + x == escape(b) + y,
    ensures
        a == b,
        x == y,
{
    let s = escape(a) + x;
    let t = escape(b) + y;
    assert(s[0] == escape(a)[0] && t[0] == escape(b)[0]);
    if escape(a).len() > 1 && escape(b).len() > 1 {
        assert(s[1] == escape(a)[1] && t[1] == escape(b)[1]);
        if escape(a).len() == 6 && escape(b).len() == 6 {
            assert(s[4] == escape(a)[4] && t[4] == escape(b)[4]);
            assert(s[5] == escape(a)[5] && t[5] == escape(b)[5]);
            assert(a as int / 16 < 2 && b as int / 16 < 2);
        }
    }
    assert(a == b);
    assert(x =~= s.skip(escape(a).len() as int));
    assert(y =~= t.skip(escape(b).len() as int));
}

proof fn lemma_escaped_differs(a: Seq<char>, b: Seq<char>)
    requires
        escaped(a) + seq!['"'] == escaped(b) + seq!['"'],
    ensures
        a == b,
    decreases a.len(),
{
    let quote = seq!['"'];
    if a.len() > 0 {
        assert(escaped(a) + quote =~= escape(a[0]) + (escaped(a.drop_first()) + quote));
        assert((escape(a[0]) + (escaped(a.drop_first()) + quote))[0] == escape(a[0])[0]);
    }
    if b.len() > 0 {
        assert(escaped(b) + quote =~= escape(b[0]) + (escaped(b.drop_first()) + quote));
        assert((escape(b[0]) + (escaped(b.drop_first()) + quote))[0] == escape(b[0])[0]);
    }
    if a.len() > 0 && b.len() > 0 {
        lemma_escape_differs(
            a[0],
            b[0],
            escaped(a.drop_first()) + quote,
            escaped(b.drop_first()) + quote,
        );
        lemma_escaped_differs(a.drop_first(), b.drop_first());
        assert(a =~= seq![a[0]] + a.drop_first());
        assert(b =~= seq![b[0]] + b.drop_first());
    } else {
        assert((Seq::<char>::empty() + quote)[0] == '"');
        assert(a =~= b);
    }
}

/// No two strings have the same JSON text.
pub proof fn law_quoted_is_unambiguous(a: Seq<char>, b: Seq<char>)
    requires
        quoted(a) == quoted(b),
    ensures
        a == b,
{
    assert(quoted(a).skip(1) =~= escaped(a) + seq!['"']);
    assert(quoted(b).skip(1) =~= escaped(b) + seq!['"']);
    lemma_escaped_differs(a, b);
}

/// The string that a value is, where there is a value and it is a string.
pub(crate) fn string_member(value: &Value, key: &str) -> (r: Option<String>)
    ensures
        match r {
            Some(r) => string_in(member_of(json_text(*value), key@)) == Some(r@),
            None => string_in(member_of(json_text(*value), key@)) is None,
        },
{
    match member(value, key) {
        Some(m) => {
            let r = as_string(&m);
            proof {
                if r is Some {
                    let s = choose|s: Seq<char>| Some(json_text(m)) == Some(#[trigger] quoted(s));
                    law_quoted_is_unambiguous(r->0@, s);
                }
            }
            r
        },
        None => None,
    }
}

} // verus!
