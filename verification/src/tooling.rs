//! What the tools promise to an agent: each does what its name says, and its outcome is
//! told as it is.

use crate::decimal::{decimal, law_decimal_round_trip, number};
use crate::json::{
    array_text, escape, escaped, integer_text, joined, member_of, object_text, parsed, quoted,
    string_in,
};
use crate::mcp::{
    argument, asked, flushed, greeting_text, law_tool_list, lemma_tool_names, outcome_text,
    replaced, reply_text, response, task, told, tool_in, tools, tools_text, unknown_text, words,
    Par, Response, Tool,
};
use crate::server::{suits, Answer, Req};
use crate::text::trimmed;
use vstd::prelude::*;
use vstd::utf8::{encode_utf8, encode_utf8_decode_utf8, encode_utf8_valid_utf8, valid_utf8};

verus! {

/// A tool that is called with the arguments that it requires asks the store for what its
/// name says, on exactly these arguments, whatever other arguments are there or are not:
/// `flint_set` sets the key to the value, `flint_get` reads the key, `flint_delete` deletes
/// it, and `flint_len` counts.
pub proof fn law_tool_does_what_its_name_says(params: Par, key: Seq<char>, value: Seq<char>)
    ensures
        params.name == Some("flint_set"@) && params.key == Some(key) && params.value == Some(value)
            ==> (tool_in(Some(params)) matches Ok(call) && asked(call) == (Req::Put {
            key: encode_utf8(key),
            val: encode_utf8(value),
        })),
        params.name == Some("flint_get"@) && params.key == Some(key) ==> (tool_in(
            Some(params),
        ) matches Ok(call) && asked(call) == (Req::Get { key: encode_utf8(key) })),
        params.name == Some("flint_delete"@) && params.key == Some(key) ==> (tool_in(
            Some(params),
        ) matches Ok(call) && asked(call) == (Req::Delete { key: encode_utf8(key) })),
        params.name == Some("flint_len"@) ==> (tool_in(Some(params)) matches Ok(call) && asked(
            call,
        ) == Req::Len),
{
    lemma_tool_names();
}

/// A tool that may change the store is brought to stable storage before it is answered, so
/// that what an agent was told is kept, and no other is.
pub proof fn law_changes_are_flushed(call: Tool)
    ensures
        flushed(call) <==> asked(call) is Put || asked(call) is Delete,
{
}

/// What a tool asks of the store does not depend on arguments that it does not require.
pub proof fn law_other_arguments_do_not_matter(a: Par, b: Par, i: int)
    requires
        0 <= i < tools().len(),
        a.name == Some(tools()[i].name),
        b.name == Some(tools()[i].name),
        forall|j: int|
            0 <= j < tools()[i].args.len() ==> argument(a, #[trigger] tools()[i].args[j])
                == argument(b, tools()[i].args[j]),
    ensures
        tool_in(Some(a)) == tool_in(Some(b)),
{
    law_tool_list();
    lemma_tool_names();
    let args = tools()[i].args;
    if i < 3 {
        assert(argument(a, args[0]) == argument(b, args[0]));
    }
    if i == 0 {
        assert(argument(a, args[1]) == argument(b, args[1]));
    }
}

/// Where an argument is missing that a tool requires, the tool and the first such argument
/// are named.
pub proof fn law_missing_argument_is_named(params: Par, i: int, j: int)
    requires
        0 <= i < tools().len(),
        0 <= j < tools()[i].args.len(),
        params.name == Some(tools()[i].name),
        argument(params, tools()[i].args[j]) is None,
        forall|k: int|
            0 <= k < j ==> argument(params, #[trigger] tools()[i].args[k]) is Some,
    ensures
        tool_in(Some(params)) == Err::<Tool, Seq<char>>(
            tools()[i].name + " needs a "@ + tools()[i].args[j],
        ),
{
    law_tool_list();
    lemma_tool_names();
    reveal_strlit("flint_set");
    reveal_strlit("flint_get");
    reveal_strlit("flint_delete");
    reveal_strlit("key");
    reveal_strlit("value");
    reveal_strlit(" needs a ");
    reveal_strlit("flint_set needs a key");
    reveal_strlit("flint_set needs a value");
    reveal_strlit("flint_get needs a key");
    reveal_strlit("flint_delete needs a key");
    assert("flint_set needs a key"@ =~= "flint_set"@ + " needs a "@ + "key"@);
    assert("flint_set needs a value"@ =~= "flint_set"@ + " needs a "@ + "value"@);
    assert("flint_get needs a key"@ =~= "flint_get"@ + " needs a "@ + "key"@);
    assert("flint_delete needs a key"@ =~= "flint_delete"@ + " needs a "@ + "key"@);
    let args = tools()[i].args;
    if j == 1 {
        assert(argument(params, args[0]) is Some);
        assert(args[1] == "value"@);
    } else {
        assert(args[0] == "key"@);
    }
}

/// A call without parameters, without the name of a tool, or with one that is not among the
/// four, asks for nothing, and says so.
pub proof fn law_call_without_a_tool(params: Par)
    ensures
        tool_in(None) == Err::<Tool, Seq<char>>("missing params"@),
        params.name is None ==> tool_in(Some(params)) == Err::<Tool, Seq<char>>(
            "missing tool name"@,
        ),
        params.name matches Some(name) ==> (name != "flint_set"@ && name != "flint_get"@ && name
            != "flint_delete"@ && name != "flint_len"@ ==> tool_in(Some(params)) == Err::<
            Tool,
            Seq<char>,
        >("unknown tool '"@ + name + "'"@)),
{
}

/// What a request is answered by its method: a call runs the tool that its parameters ask
/// for, or tells what is wrong with them; a greeting and the list of tools come whatever the
/// parameters are; nothing is sent for the note that a client is ready or without a method;
/// and any other method is not found.
pub proof fn law_methods(id: Seq<char>, method: Seq<char>, params: Option<Par>, version: Seq<char>)
    ensures
        ({
            let done = response(id, task(method, params), version);
            if method == "tools/call"@ {
                match tool_in(params) {
                    Ok(call) => done == (Response::Call { id, call }),
                    Err(message) => done == (Response::Reply {
                        line: outcome_text(id, Err(message)),
                    }),
                }
            } else if method == "initialize"@ {
                done == (Response::Reply { line: reply_text(id, greeting_text(version)) })
            } else if method == "tools/list"@ {
                done == (Response::Reply {
                    line: reply_text(
                        id,
                        seq!['{'] + field("tools"@, tools_text()) + seq!['}'],
                    ),
                })
            } else if method == "notifications/initialized"@ || method.len() == 0 {
                done is Nothing
            } else {
                done == (Response::Reply { line: unknown_text(id) })
            }
        }),
{
    reveal_strlit("");
    reveal_strlit("initialize");
    reveal_strlit("tools/list");
    reveal_strlit("tools/call");
    reveal_strlit("notifications/initialized");
    reveal_strlit("tools");
    lemma_object_1("tools"@, tools_text());
    assert("initialize"@[0] == 'i');
    assert("tools/list"@[0] == 't' && "tools/list"@[6] == 'l');
    assert("tools/call"@[0] == 't' && "tools/call"@[6] == 'c');
    assert("notifications/initialized"@[0] == 'n');
    if method.len() == 0 {
        assert(method =~= ""@);
    }
}

/// A line that is not blank and is JSON is a request, whose id, method, tool and arguments
/// are those that its JSON holds; where it holds no id, the reply carries `null`.
pub proof fn law_request_is_read(line: Seq<char>, text: Seq<char>)
    requires
        trimmed(line).len() > 0,
        parsed(line) == Some(text),
    ensures
        words(line) is Some,
        ({
            let w = words(line)->0;
            &&& match member_of(text, "id"@) {
                Some(id) => w.id == id,
                None => w.id == "null"@,
            }
            &&& match string_in(member_of(text, "method"@)) {
                Some(method) => w.method == method,
                None => w.method.len() == 0,
            }
            &&& match member_of(text, "params"@) {
                Some(params) => w.params matches Some(par) && {
                    &&& par.name == string_in(member_of(params, "name"@))
                    &&& match member_of(params, "arguments"@) {
                        Some(args) => par.key == string_in(member_of(args, "key"@)) && par.value
                            == string_in(member_of(args, "value"@)),
                        None => par.key is None && par.value is None,
                    }
                },
                None => w.params is None,
            }
        }),
{
    reveal_strlit("");
}

/// A line that is blank or no JSON is no request.
pub proof fn law_other_lines_are_passed_over(line: Seq<char>)
    requires
        trimmed(line).len() == 0 || parsed(line) is None,
    ensures
        words(line) is None,
{
}

/// What is told of a tool is what came of it. A value that is text is told as that text,
/// and a missing one as `(nil)`; setting and deleting name the key; and the number of keys
/// is told in digits that spell it.
pub proof fn law_outcome_is_told(key: Seq<char>, value: Seq<char>, text: Seq<char>, answer: Answer)
    ensures
        suits(asked(Tool::Put { key, value }), answer) ==> told(Tool::Put { key, value }, answer)
            == "set "@ + key,
        answer matches Answer::Value { val: Some(val) } ==> (val@ == encode_utf8(text) ==> told(
            Tool::Get { key },
            answer,
        ) == text),
        answer matches Answer::Value { val: Some(val) } ==> (!valid_utf8(val@) ==> told(
            Tool::Get { key },
            answer,
        ) == replaced(val@)),
        answer matches Answer::Value { val: None } ==> told(Tool::Get { key }, answer) == "(nil)"@,
        answer matches Answer::Hit { hit: true } ==> told(Tool::Delete { key }, answer)
            == "deleted "@ + key,
        answer matches Answer::Hit { hit: false } ==> told(Tool::Delete { key }, answer) == key
            + " not found"@,
        answer matches Answer::Count { n } ==> number(told(Tool::Len, answer), usize::MAX as nat)
            == Some(n as nat),
{
    encode_utf8_valid_utf8(text);
    encode_utf8_decode_utf8(text);
    if let Answer::Count { n } = answer {
        law_decimal_round_trip(n as nat, usize::MAX as nat);
    }
}

/// Nothing in the text is changed where it is written in JSON.
pub open spec fn plain(text: Seq<char>) -> bool {
    forall|i: int| 0 <= i < text.len() ==> escape(#[trigger] text[i]) == seq![text[i]]
}

proof fn lemma_plain(text: Seq<char>)
    requires
        plain(text),
    ensures
        escaped(text) == text,
        quoted(text) == seq!['"'] + text + seq!['"'],
    decreases text.len(),
{
    if text.len() > 0 {
        let rest = text.drop_first();
        assert forall|i: int| 0 <= i < rest.len() implies escape(#[trigger] rest[i]) == seq![
            rest[i],
        ] by {
            assert(escape(text[i + 1]) == seq![text[i + 1]]);
        }
        lemma_plain(rest);
        assert(escape(text[0]) == seq![text[0]]);
        assert(escaped(text) =~= text);
    } else {
        assert(escaped(text) =~= text);
    }
}

/// A member of an object: its name in quotes, a colon, and the value.
pub open spec fn field(name: Seq<char>, value: Seq<char>) -> Seq<char> {
    seq!['"'] + name + seq!['"', ':'] + value
}

proof fn lemma_object_1(name: Seq<char>, value: Seq<char>)
    requires
        plain(name),
    ensures
        object_text(seq![(name, value)]) == seq!['{'] + field(name, value) + seq!['}'],
{
    lemma_plain(name);
    let parts = seq![(name, value)].map_values(
        |m: (Seq<char>, Seq<char>)| quoted(m.0) + seq![':'] + m.1,
    );
    assert(parts =~= seq![quoted(name) + seq![':'] + value]);
    assert(quoted(name) + seq![':'] + value =~= field(name, value));
}

proof fn lemma_object_2(a: Seq<char>, x: Seq<char>, b: Seq<char>, y: Seq<char>)
    requires
        plain(a),
        plain(b),
    ensures
        object_text(seq![(a, x), (b, y)]) == seq!['{'] + field(a, x) + seq![','] + field(b, y)
            + seq!['}'],
{
    lemma_plain(a);
    lemma_plain(b);
    let members = seq![(a, x), (b, y)];
    let parts = members.map_values(|m: (Seq<char>, Seq<char>)| quoted(m.0) + seq![':'] + m.1);
    assert(quoted(a) + seq![':'] + x =~= field(a, x));
    assert(quoted(b) + seq![':'] + y =~= field(b, y));
    assert(parts =~= seq![field(a, x), field(b, y)]);
    assert(parts.drop_last() =~= seq![field(a, x)]);
    assert(joined(parts.drop_last()) == field(a, x));
    assert(joined(parts) == field(a, x) + seq![','] + field(b, y));
    assert(object_text(members) =~= seq!['{'] + field(a, x) + seq![','] + field(b, y) + seq!['}']);
}

proof fn lemma_object_3(
    a: Seq<char>,
    x: Seq<char>,
    b: Seq<char>,
    y: Seq<char>,
    c: Seq<char>,
    z: Seq<char>,
)
    requires
        plain(a),
        plain(b),
        plain(c),
    ensures
        object_text(seq![(a, x), (b, y), (c, z)]) == seq!['{'] + field(a, x) + seq![','] + field(
            b,
            y,
        ) + seq![','] + field(c, z) + seq!['}'],
{
    lemma_plain(a);
    lemma_plain(b);
    lemma_plain(c);
    let members = seq![(a, x), (b, y), (c, z)];
    let parts = members.map_values(|m: (Seq<char>, Seq<char>)| quoted(m.0) + seq![':'] + m.1);
    assert(quoted(a) + seq![':'] + x =~= field(a, x));
    assert(quoted(b) + seq![':'] + y =~= field(b, y));
    assert(quoted(c) + seq![':'] + z =~= field(c, z));
    assert(parts =~= seq![field(a, x), field(b, y), field(c, z)]);
    let two = parts.drop_last();
    assert(two =~= seq![field(a, x), field(b, y)]);
    assert(two.drop_last() =~= seq![field(a, x)]);
    assert(joined(two.drop_last()) == field(a, x));
    assert(joined(two) == field(a, x) + seq![','] + field(b, y));
    assert(joined(parts) == field(a, x) + seq![','] + field(b, y) + seq![','] + field(c, z));
    assert(object_text(members) =~= seq!['{'] + field(a, x) + seq![','] + field(b, y) + seq![',']
        + field(c, z) + seq!['}']);
}

/// The names of the members of replies are written as they are.
proof fn lemma_names()
    ensures
        plain("id"@),
        plain("jsonrpc"@),
        plain("result"@),
        plain("error"@),
        plain("code"@),
        plain("message"@),
        plain("content"@),
        plain("isError"@),
        plain("text"@),
        plain("type"@),
        plain("2.0"@),
        plain("method not found"@),
{
    reveal_strlit("id");
    reveal_strlit("jsonrpc");
    reveal_strlit("result");
    reveal_strlit("error");
    reveal_strlit("code");
    reveal_strlit("message");
    reveal_strlit("content");
    reveal_strlit("isError");
    reveal_strlit("text");
    reveal_strlit("type");
    reveal_strlit("2.0");
    reveal_strlit("method not found");
}

/// A string in quotes, nothing of which needs to be escaped.
pub open spec fn in_quotes(text: Seq<char>) -> Seq<char> {
    seq!['"'] + text + seq!['"']
}

/// How a reply is written: an object with the id of the request as it came, the version of
/// the protocol, and the result.
pub proof fn law_reply_shape(id: Seq<char>, result: Seq<char>)
    ensures
        reply_text(id, result) == seq!['{'] + field("id"@, id) + seq![','] + field(
            "jsonrpc"@,
            in_quotes("2.0"@),
        ) + seq![','] + field("result"@, result) + seq!['}'],
{
    lemma_names();
    lemma_plain("2.0"@);
    lemma_object_3("id"@, id, "jsonrpc"@, quoted("2.0"@), "result"@, result);
}

/// How the greeting is written: it names the protocol, says that there are tools, and gives
/// the name and the version of the server.
pub proof fn law_greeting_shape(version: Seq<char>)
    ensures
        ({
            let tools = seq!['{'] + field("tools"@, seq!['{', '}']) + seq!['}'];
            let server = seq!['{'] + field("name"@, in_quotes("flint"@)) + seq![','] + field(
                "version"@,
                quoted(version),
            ) + seq!['}'];
            greeting_text(version) == seq!['{'] + field("capabilities"@, tools) + seq![',']
                + field("protocolVersion"@, in_quotes("2024-11-05"@)) + seq![','] + field(
                "serverInfo"@,
                server,
            ) + seq!['}']
        }),
{
    reveal_strlit("tools");
    reveal_strlit("name");
    reveal_strlit("flint");
    reveal_strlit("version");
    reveal_strlit("capabilities");
    reveal_strlit("protocolVersion");
    reveal_strlit("2024-11-05");
    reveal_strlit("serverInfo");
    let none = object_text(seq![]);
    assert(none =~= seq!['{', '}']);
    lemma_plain("flint"@);
    lemma_plain("2024-11-05"@);
    lemma_object_1("tools"@, none);
    lemma_object_2("name"@, quoted("flint"@), "version"@, quoted(version));
    lemma_object_3(
        "capabilities"@,
        object_text(seq![("tools"@, none)]),
        "protocolVersion"@,
        quoted("2024-11-05"@),
        "serverInfo"@,
        object_text(seq![("name"@, quoted("flint"@)), ("version"@, quoted(version))]),
    );
}

/// How the outcome of a tool is written: its text, whatever it is, as one JSON string, and,
/// exactly where the tool failed, a mark that says so.
pub proof fn law_outcome_shape(id: Seq<char>, text: Seq<char>)
    ensures
        ({
            let item = seq!['{'] + field("text"@, quoted(text)) + seq![','] + field(
                "type"@,
                in_quotes("text"@),
            ) + seq!['}'];
            let content = field("content"@, seq!['['] + item + seq![']']);
            &&& outcome_text(id, Ok(text)) == reply_text(id, seq!['{'] + content + seq!['}'])
            &&& outcome_text(id, Err(text)) == reply_text(
                id,
                seq!['{'] + content + seq![','] + field("isError"@, "true"@) + seq!['}'],
            )
        }),
{
    lemma_names();
    lemma_plain("text"@);
    lemma_object_2("text"@, quoted(text), "type"@, quoted("text"@));
    let item = object_text(seq![("text"@, quoted(text)), ("type"@, quoted("text"@))]);
    assert(joined(seq![item]) == item);
    let content = array_text(seq![item]);
    lemma_object_1("content"@, content);
    lemma_object_2("content"@, content, "isError"@, "true"@);
}

/// How the reply to a method that there is not is written: the id as it came, and the error
/// with its number and its text.
pub proof fn law_unknown_method_shape(id: Seq<char>)
    ensures
        ({
            let error = seq!['{'] + field("code"@, "-32601"@) + seq![','] + field(
                "message"@,
                in_quotes("method not found"@),
            ) + seq!['}'];
            unknown_text(id) == seq!['{'] + field("error"@, error) + seq![','] + field("id"@, id)
                + seq![','] + field("jsonrpc"@, in_quotes("2.0"@)) + seq!['}']
        }),
{
    lemma_names();
    lemma_plain("method not found"@);
    lemma_plain("2.0"@);
    reveal_strlit("-32601");
    reveal_with_fuel(decimal, 6);
    assert(integer_text(-32601) =~= "-32601"@);
    lemma_object_2("code"@, integer_text(-32601), "message"@, quoted("method not found"@));
    let error = object_text(
        seq![("code"@, integer_text(-32601)), ("message"@, quoted("method not found"@))],
    );
    lemma_object_3("error"@, error, "id"@, id, "jsonrpc"@, quoted("2.0"@));
}

} // verus!
