//! The tools by which an agent uses a store as its memory: requests and replies, each
//! of them one line of JSON.

use crate::decimal::{chars_of, decimal, to_decimal};
use crate::disk::{durable, in_step, kept, live, run, stored, World};
use crate::json::{
    array, array_text, boolean, integer, integer_text, json_text, keys_ascend, member, member_in,
    member_of, members_view, null, object, object_text, one_line, parse, parsed, precedes, quoted,
    string, string_in, string_member, to_text,
};
use crate::record::{HEADER, MAX_KV};
use crate::server::{suits, Answer, Req, Request};
use crate::store::{room, set_moves};
use crate::text::{trim, trimmed};
use crate::writing::law_set_keeps_the_latest;
use serde_json::Value;
use vstd::prelude::*;
use vstd::slice::slice_to_vec;
use vstd::utf8::{
    decode_utf8, encode_utf8, encode_utf8_decode_utf8, encode_utf8_valid_utf8, valid_utf8,
};

verus! {

/// What is read of the parameters of a request.
#[derive(Debug, PartialEq, Eq)]
pub struct Params {
    /// The tool that is called.
    pub name: Option<String>,
    /// Its argument `key`.
    pub key: Option<String>,
    /// Its argument `value`.
    pub value: Option<String>,
}

/// The mathematical form of parameters.
pub struct Par {
    pub name: Option<Seq<char>>,
    pub key: Option<Seq<char>>,
    pub value: Option<Seq<char>>,
}

/// The text of a string, where there is one.
pub open spec fn text_of(s: Option<String>) -> Option<Seq<char>> {
    match s {
        Some(s) => Some(s@),
        None => None,
    }
}

impl View for Params {
    type V = Par;

    open spec fn view(&self) -> Par {
        Par { name: text_of(self.name), key: text_of(self.key), value: text_of(self.value) }
    }
}

/// The mathematical form of parameters that may be missing.
pub open spec fn par_of(params: Option<Params>) -> Option<Par> {
    match params {
        Some(params) => Some(params@),
        None => None,
    }
}

/// What a tool does.
#[derive(Debug, PartialEq, Eq)]
pub enum ToolCall {
    Put { key: String, value: String },
    Get { key: String },
    Delete { key: String },
    Len,
}

/// The mathematical form of what a tool does.
pub enum Tool {
    Put { key: Seq<char>, value: Seq<char> },
    Get { key: Seq<char> },
    Delete { key: Seq<char> },
    Len,
}

impl View for ToolCall {
    type V = Tool;

    open spec fn view(&self) -> Tool {
        match *self {
            ToolCall::Put { key, value } => Tool::Put { key: key@, value: value@ },
            ToolCall::Get { key } => Tool::Get { key: key@ },
            ToolCall::Delete { key } => Tool::Delete { key: key@ },
            ToolCall::Len => Tool::Len,
        }
    }
}

/// The call that the parameters ask for, or what is wrong with them.
pub open spec fn tool_in(params: Option<Par>) -> Result<Tool, Seq<char>> {
    match params {
        None => Err("missing params"@),
        Some(params) => match params.name {
            None => Err("missing tool name"@),
            Some(name) => if name == "flint_set"@ {
                match (params.key, params.value) {
                    (None, _) => Err("flint_set needs a key"@),
                    (Some(_), None) => Err("flint_set needs a value"@),
                    (Some(key), Some(value)) => Ok(Tool::Put { key, value }),
                }
            } else if name == "flint_get"@ {
                match params.key {
                    None => Err("flint_get needs a key"@),
                    Some(key) => Ok(Tool::Get { key }),
                }
            } else if name == "flint_delete"@ {
                match params.key {
                    None => Err("flint_delete needs a key"@),
                    Some(key) => Ok(Tool::Delete { key }),
                }
            } else if name == "flint_len"@ {
                Ok(Tool::Len)
            } else {
                Err(unknown_tool(name))
            },
        },
    }
}

/// Whether two texts are the same.
fn same_text(a: &str, b: &str) -> (same: bool)
    ensures
        same == (a@ == b@),
{
    a.to_owned() == b.to_owned()
}

/// The call that the parameters ask for, or what is wrong with them.
pub fn call_tool(params: &Option<Params>) -> (r: Result<ToolCall, String>)
    ensures
        match r {
            Ok(call) => tool_in(par_of(*params)) == Ok::<Tool, Seq<char>>(call@),
            Err(message) => tool_in(par_of(*params)) == Err::<Tool, Seq<char>>(message@),
        },
{
    let params = match params {
        Some(params) => params,
        None => {
            return Err("missing params".to_owned());
        },
    };
    let name = match &params.name {
        Some(name) => name,
        None => {
            return Err("missing tool name".to_owned());
        },
    };
    if same_text(name.as_str(), "flint_set") {
        match (&params.key, &params.value) {
            (None, _) => Err("flint_set needs a key".to_owned()),
            (Some(_), None) => Err("flint_set needs a value".to_owned()),
            (Some(key), Some(value)) => Ok(
                ToolCall::Put { key: key.clone(), value: value.clone() },
            ),
        }
    } else if same_text(name.as_str(), "flint_get") {
        match &params.key {
            None => Err("flint_get needs a key".to_owned()),
            Some(key) => Ok(ToolCall::Get { key: key.clone() }),
        }
    } else if same_text(name.as_str(), "flint_delete") {
        match &params.key {
            None => Err("flint_delete needs a key".to_owned()),
            Some(key) => Ok(ToolCall::Delete { key: key.clone() }),
        }
    } else if same_text(name.as_str(), "flint_len") {
        Ok(ToolCall::Len)
    } else {
        let mut message = "unknown tool '".to_owned();
        message.append(name.as_str());
        message.append("'");
        Err(message)
    }
}

/// The call is brought to stable storage before it is answered.
pub open spec fn flushed(call: Tool) -> bool {
    call is Put || call is Delete
}

impl ToolCall {
    /// Whether the call is brought to stable storage before it is answered: one that
    /// may change the store is.
    pub fn flushes(&self) -> (r: bool)
        ensures
            r == flushed(self@),
            r == (self@ is Put || self@ is Delete),
    {
        match self {
            ToolCall::Put { .. } => true,
            ToolCall::Delete { .. } => true,
            _ => false,
        }
    }
}

/// What a request asks for.
#[derive(Debug, PartialEq, Eq)]
pub enum Duty {
    /// Nothing: it is not answered.
    Nothing,
    /// The greeting.
    Initialize,
    /// The list of tools.
    ListTools,
    /// A tool.
    Call { call: ToolCall },
    /// A tool, but something is wrong with the parameters.
    Reject { message: String },
    /// A method that there is not.
    Unknown,
}

/// The mathematical form of a duty.
pub enum Task {
    Nothing,
    Initialize,
    ListTools,
    Call { call: Tool },
    Reject { message: Seq<char> },
    Unknown,
}

impl View for Duty {
    type V = Task;

    open spec fn view(&self) -> Task {
        match *self {
            Duty::Nothing => Task::Nothing,
            Duty::Initialize => Task::Initialize,
            Duty::ListTools => Task::ListTools,
            Duty::Call { call } => Task::Call { call: call@ },
            Duty::Reject { message } => Task::Reject { message: message@ },
            Duty::Unknown => Task::Unknown,
        }
    }
}

/// What a request with this method and these parameters asks for.
pub open spec fn task(method: Seq<char>, params: Option<Par>) -> Task {
    if method == "initialize"@ {
        Task::Initialize
    } else if method == "tools/list"@ {
        Task::ListTools
    } else if method == "tools/call"@ {
        match tool_in(params) {
            Ok(call) => Task::Call { call },
            Err(message) => Task::Reject { message },
        }
    } else if method == "notifications/initialized"@ || method == ""@ {
        Task::Nothing
    } else {
        Task::Unknown
    }
}

/// What a request with this method and these parameters asks for.
pub fn duty(method: &str, params: &Option<Params>) -> (duty: Duty)
    ensures
        duty@ == task(method@, par_of(*params)),
{
    if same_text(method, "initialize") {
        Duty::Initialize
    } else if same_text(method, "tools/list") {
        Duty::ListTools
    } else if same_text(method, "tools/call") {
        match call_tool(params) {
            Ok(call) => Duty::Call { call },
            Err(message) => Duty::Reject { message },
        }
    } else if same_text(method, "notifications/initialized") || same_text(method, "") {
        Duty::Nothing
    } else {
        Duty::Unknown
    }
}

/// What is read of a request. The id is kept as it came.
pub struct Heard {
    pub id: Value,
    pub method: String,
    pub params: Option<Params>,
}

/// The mathematical form of what is read of a request; the id by its JSON text.
pub struct Words {
    pub id: Seq<char>,
    pub method: Seq<char>,
    pub params: Option<Par>,
}

impl View for Heard {
    type V = Words;

    open spec fn view(&self) -> Words {
        Words { id: json_text(self.id), method: self.method@, params: par_of(self.params) }
    }
}

/// What is read of parameters, given their JSON text.
pub open spec fn params_in(text: Seq<char>) -> Par {
    let args = member_of(text, "arguments"@);
    Par {
        name: string_in(member_of(text, "name"@)),
        key: string_in(member_in(args, "key"@)),
        value: string_in(member_in(args, "value"@)),
    }
}

/// What is read of a request, given its JSON text.
pub open spec fn words_in(text: Seq<char>) -> Words {
    Words {
        id: match member_of(text, "id"@) {
            Some(id) => id,
            None => "null"@,
        },
        method: match string_in(member_of(text, "method"@)) {
            Some(method) => method,
            None => ""@,
        },
        params: match member_of(text, "params"@) {
            Some(params) => Some(params_in(params)),
            None => None,
        },
    }
}

/// The request in a line; `None` where the line is blank or no JSON.
pub open spec fn words(line: Seq<char>) -> Option<Words> {
    if trimmed(line).len() == 0 {
        None
    } else {
        match parsed(line) {
            Some(text) => Some(words_in(text)),
            None => None,
        }
    }
}

/// Reads the parameters of a request.
fn read_params(value: &Value) -> (params: Params)
    ensures
        params@ == params_in(json_text(*value)),
{
    let name = string_member(value, "name");
    match member(value, "arguments") {
        Some(args) => {
            let key = string_member(&args, "key");
            let value = string_member(&args, "value");
            Params { name, key, value }
        },
        None => Params { name, key: None, value: None },
    }
}

/// Reads the request in a line. `None` where the line is blank or no JSON.
pub fn hear(line: &str) -> (heard: Option<Heard>)
    ensures
        match heard {
            Some(heard) => words(line@) == Some(heard@),
            None => words(line@) is None,
        },
{
    let chars = chars_of(line);
    if trim(chars.as_slice()).len() == 0 {
        return None;
    }
    let value = match parse(line) {
        Some(value) => value,
        None => {
            return None;
        },
    };
    let id = match member(&value, "id") {
        Some(id) => id,
        None => null(),
    };
    let method = match string_member(&value, "method") {
        Some(method) => method,
        None => "".to_owned(),
    };
    let params = match member(&value, "params") {
        Some(params) => Some(read_params(&params)),
        None => None,
    };
    Some(Heard { id, method, params })
}

/// The reply to the request `id`.
pub open spec fn reply_text(id: Seq<char>, result: Seq<char>) -> Seq<char> {
    object_text(seq![("id"@, id), ("jsonrpc"@, quoted("2.0"@)), ("result"@, result)])
}

/// The greeting.
pub open spec fn greeting_text(version: Seq<char>) -> Seq<char> {
    object_text(
        seq![
            ("capabilities"@, object_text(seq![("tools"@, object_text(seq![]))])),
            ("protocolVersion"@, quoted("2024-11-05"@)),
            (
                "serverInfo"@,
                object_text(seq![("name"@, quoted("flint"@)), ("version"@, quoted(version))]),
            ),
        ],
    )
}

/// The schema of an argument that is a string.
pub open spec fn string_schema() -> Seq<char> {
    object_text(seq![("type"@, quoted("string"@))])
}

/// The schema of arguments, all of them strings and all of them required.
pub open spec fn schema_text(args: Seq<Seq<char>>) -> Seq<char> {
    let properties = object_text(args.map_values(|arg: Seq<char>| (arg, string_schema())));
    let kind = ("type"@, quoted("object"@));
    if args.len() == 0 {
        object_text(seq![("properties"@, properties), kind])
    } else {
        let required = array_text(args.map_values(|arg: Seq<char>| quoted(arg)));
        object_text(seq![("properties"@, properties), ("required"@, required), kind])
    }
}

/// How a tool is described.
pub open spec fn tool_text(name: Seq<char>, about: Seq<char>, args: Seq<Seq<char>>) -> Seq<char> {
    object_text(
        seq![
            ("description"@, quoted(about)),
            ("inputSchema"@, schema_text(args)),
            ("name"@, quoted(name)),
        ],
    )
}

/// A tool, as it is listed.
pub struct Listed {
    pub name: Seq<char>,
    pub about: Seq<char>,
    /// The arguments that it requires.
    pub args: Seq<Seq<char>>,
}

/// The tools, in the order in which they are listed.
pub open spec fn tools() -> Seq<Listed> {
    seq![
        Listed {
            name: "flint_set"@,
            about: "Store a value under a key in Flint (persists across sessions)."@,
            args: seq!["key"@, "value"@],
        },
        Listed {
            name: "flint_get"@,
            about: "Read the value stored under a key. Returns (nil) if absent."@,
            args: seq!["key"@],
        },
        Listed {
            name: "flint_delete"@,
            about: "Delete a key from Flint."@,
            args: seq!["key"@],
        },
        Listed {
            name: "flint_len"@,
            about: "Return the number of live keys stored in Flint."@,
            args: seq![],
        },
    ]
}

/// The list of tools.
pub open spec fn tools_text() -> Seq<char> {
    array_text(tools().map_values(|tool: Listed| tool_text(tool.name, tool.about, tool.args)))
}

/// The result of a tool: its text, with a mark where it failed.
pub open spec fn content_text(text: Seq<char>, failed: bool) -> Seq<char> {
    let content = (
        "content"@,
        array_text(seq![object_text(seq![("text"@, quoted(text)), ("type"@, quoted("text"@))])]),
    );
    if failed {
        object_text(seq![content, ("isError"@, "true"@)])
    } else {
        object_text(seq![content])
    }
}

/// The reply to a method that there is not.
pub open spec fn unknown_text(id: Seq<char>) -> Seq<char> {
    let error = object_text(
        seq![("code"@, integer_text(-32601)), ("message"@, quoted("method not found"@))],
    );
    object_text(seq![("error"@, error), ("id"@, id), ("jsonrpc"@, quoted("2.0"@))])
}

/// A key of an object, and the value under it.
fn entry(key: &str, value: Value) -> (r: (String, Value))
    ensures
        r.0@ == key@,
        r.1 == value,
{
    (key.to_owned(), value)
}

/// An object with one member.
fn object_1(a: (String, Value)) -> (value: Value)
    ensures
        json_text(value) == object_text(seq![(a.0@, json_text(a.1))]),
{
    let members = vec![a];
    assert(members_view(members@) =~= seq![(a.0@, json_text(a.1))]);
    object(members)
}

/// An object with two members.
fn object_2(a: (String, Value), b: (String, Value)) -> (value: Value)
    requires
        precedes(a.0@, b.0@),
    ensures
        json_text(value) == object_text(seq![(a.0@, json_text(a.1)), (b.0@, json_text(b.1))]),
{
    let members = vec![a, b];
    assert(members_view(members@) =~= seq![(a.0@, json_text(a.1)), (b.0@, json_text(b.1))]);
    object(members)
}

/// An object with three members.
fn object_3(a: (String, Value), b: (String, Value), c: (String, Value)) -> (value: Value)
    requires
        precedes(a.0@, b.0@),
        precedes(a.0@, c.0@),
        precedes(b.0@, c.0@),
    ensures
        json_text(value) == object_text(
            seq![(a.0@, json_text(a.1)), (b.0@, json_text(b.1)), (c.0@, json_text(c.1))],
        ),
{
    let members = vec![a, b, c];
    assert(members_view(members@) =~= seq![
        (a.0@, json_text(a.1)),
        (b.0@, json_text(b.1)),
        (c.0@, json_text(c.1)),
    ]);
    object(members)
}

/// The reply to the request `id`.
fn reply(id: Value, result: Value) -> (line: String)
    ensures
        line@ == reply_text(json_text(id), json_text(result)),
        one_line(line@),
{
    proof {
        reveal_strlit("id");
        reveal_strlit("jsonrpc");
        reveal_strlit("result");
    }
    to_text(
        &object_3(entry("id", id), entry("jsonrpc", string("2.0")), entry("result", result)),
    )
}

/// The greeting.
fn greeting(version: &str) -> (value: Value)
    ensures
        json_text(value) == greeting_text(version@),
{
    proof {
        reveal_strlit("capabilities");
        reveal_strlit("protocolVersion");
        reveal_strlit("serverInfo");
        reveal_strlit("name");
        reveal_strlit("version");
    }
    let nothing: Vec<(String, Value)> = Vec::new();
    assert(members_view(nothing@) =~= seq![]);
    let tools = object_1(entry("tools", object(nothing)));
    let server = object_2(entry("name", string("flint")), entry("version", string(version)));
    object_3(
        entry("capabilities", tools),
        entry("protocolVersion", string("2024-11-05")),
        entry("serverInfo", server),
    )
}

/// The result of a tool.
fn content(text: &str, failed: bool) -> (value: Value)
    ensures
        json_text(value) == content_text(text@, failed),
{
    proof {
        reveal_strlit("text");
        reveal_strlit("type");
        reveal_strlit("content");
        reveal_strlit("isError");
        reveal_with_fuel(precedes, 2);
    }
    let item = object_2(entry("text", string(text)), entry("type", string("text")));
    let items = vec![item];
    assert(items@.map_values(|item: Value| json_text(item)) =~= seq![json_text(item)]);
    let list = array(items);
    if failed {
        object_2(entry("content", list), entry("isError", boolean(true)))
    } else {
        object_1(entry("content", list))
    }
}

/// The texts of strings.
spec fn texts(strings: Seq<String>) -> Seq<Seq<char>> {
    strings.map_values(|s: String| s@)
}

/// The schema of arguments, all of them strings and all of them required.
fn schema(args: &Vec<String>) -> (value: Value)
    requires
        forall|i: int, j: int|
            0 <= i < j < args@.len() ==> precedes((#[trigger] args@[i])@, (#[trigger] args@[j])@),
    ensures
        json_text(value) == schema_text(texts(args@)),
{
    let ghost names = texts(args@);
    let mut members: Vec<(String, Value)> = Vec::new();
    let mut required: Vec<Value> = Vec::new();
    let mut i: usize = 0;
    while i < args.len()
        invariant
            i <= args@.len(),
            names == texts(args@),
            members_view(members@) == names.take(i as int).map_values(
                |arg: Seq<char>| (arg, string_schema()),
            ),
            required@.map_values(|item: Value| json_text(item)) == names.take(i as int).map_values(
                |arg: Seq<char>| quoted(arg),
            ),
        decreases args@.len() - i,
    {
        let ghost some = names.take(i as int);
        let member = entry(args[i].as_str(), object_1(entry("type", string("string"))));
        let item = string(args[i].as_str());
        assert(json_text(member.1) == string_schema());
        assert(members_view(members@.push(member)) =~= members_view(members@).push(
            (names[i as int], string_schema()),
        ));
        assert(required@.push(item).map_values(|item: Value| json_text(item))
            =~= required@.map_values(|item: Value| json_text(item)).push(
            quoted(names[i as int]),
        ));
        assert(names.take(i + 1) =~= some.push(names[i as int]));
        members.push(member);
        required.push(item);
        i += 1;
        assert(members_view(members@) =~= names.take(i as int).map_values(
            |arg: Seq<char>| (arg, string_schema()),
        ));
        assert(required@.map_values(|item: Value| json_text(item)) =~= names.take(
            i as int,
        ).map_values(|arg: Seq<char>| quoted(arg)));
    }
    assert(names.take(i as int) =~= names);
    assert(keys_ascend(members_view(members@))) by {
        assert forall|a: int, b: int| 0 <= a < b < names.len() implies precedes(
            (#[trigger] members_view(members@)[a]).0,
            (#[trigger] members_view(members@)[b]).0,
        ) by {
            assert(precedes(args@[a]@, args@[b]@));
        }
    }
    let properties = object(members);
    proof {
        reveal_strlit("properties");
        reveal_strlit("required");
        reveal_strlit("type");
        reveal_with_fuel(precedes, 2);
    }
    if args.len() == 0 {
        object_2(entry("properties", properties), entry("type", string("object")))
    } else {
        object_3(
            entry("properties", properties),
            entry("required", array(required)),
            entry("type", string("object")),
        )
    }
}

/// How a tool is described.
fn describe(name: &str, about: &str, args: &Vec<String>) -> (value: Value)
    requires
        forall|i: int, j: int|
            0 <= i < j < args@.len() ==> precedes((#[trigger] args@[i])@, (#[trigger] args@[j])@),
    ensures
        json_text(value) == tool_text(name@, about@, texts(args@)),
{
    proof {
        reveal_strlit("description");
        reveal_strlit("inputSchema");
        reveal_strlit("name");
    }
    object_3(
        entry("description", string(about)),
        entry("inputSchema", schema(args)),
        entry("name", string(name)),
    )
}

/// The list of tools.
pub fn tool_specs() -> (value: Value)
    ensures
        json_text(value) == tools_text(),
{
    let both: Vec<String> = vec!["key".to_owned(), "value".to_owned()];
    let one: Vec<String> = vec!["key".to_owned()];
    let none: Vec<String> = Vec::new();
    proof {
        reveal_strlit("key");
        reveal_strlit("value");
    }
    assert(texts(both@) =~= seq!["key"@, "value"@]);
    assert(texts(one@) =~= seq!["key"@]);
    assert(texts(none@) =~= seq![]);
    let put = describe(
        "flint_set",
        "Store a value under a key in Flint (persists across sessions).",
        &both,
    );
    let get = describe(
        "flint_get",
        "Read the value stored under a key. Returns (nil) if absent.",
        &one,
    );
    let delete = describe("flint_delete", "Delete a key from Flint.", &one);
    let len = describe("flint_len", "Return the number of live keys stored in Flint.", &none);
    let items = vec![put, get, delete, len];
    assert(items@.map_values(|item: Value| json_text(item)) =~= tools().map_values(
        |tool: Listed| tool_text(tool.name, tool.about, tool.args),
    ));
    array(items)
}

/// The reply to a method that there is not.
fn method_not_found(id: Value) -> (line: String)
    ensures
        line@ == unknown_text(json_text(id)),
        one_line(line@),
{
    proof {
        reveal_strlit("code");
        reveal_strlit("message");
        reveal_strlit("error");
        reveal_strlit("id");
        reveal_strlit("jsonrpc");
    }
    let error = object_2(
        entry("code", integer(-32601)),
        entry("message", string("method not found")),
    );
    to_text(&object_3(entry("error", error), entry("id", id), entry("jsonrpc", string("2.0"))))
}

/// What is done about a line.
pub enum Answered {
    /// Nothing.
    Nothing,
    /// This line is sent.
    Reply { line: String },
    /// The tool is called, and what came of it is sent, with this id.
    Call { id: Value, call: ToolCall },
}

/// The mathematical form of what is done about a line.
pub enum Response {
    Nothing,
    Reply { line: Seq<char> },
    Call { id: Seq<char>, call: Tool },
}

impl View for Answered {
    type V = Response;

    open spec fn view(&self) -> Response {
        match *self {
            Answered::Nothing => Response::Nothing,
            Answered::Reply { line } => Response::Reply { line: line@ },
            Answered::Call { id, call } => Response::Call { id: json_text(id), call: call@ },
        }
    }
}

/// What is done about a request.
pub open spec fn response(id: Seq<char>, task: Task, version: Seq<char>) -> Response {
    match task {
        Task::Nothing => Response::Nothing,
        Task::Initialize => Response::Reply { line: reply_text(id, greeting_text(version)) },
        Task::ListTools => Response::Reply {
            line: reply_text(id, object_text(seq![("tools"@, tools_text())])),
        },
        Task::Call { call } => Response::Call { id, call },
        Task::Reject { message } => Response::Reply {
            line: reply_text(id, content_text(message, true)),
        },
        Task::Unknown => Response::Reply { line: unknown_text(id) },
    }
}

/// Answers a request. `version` is the one that the greeting tells.
pub fn respond(id: Value, duty: Duty, version: &str) -> (answered: Answered)
    ensures
        answered@ == response(json_text(id), duty@, version@),
        answered matches Answered::Reply { line } ==> one_line(line@),
{
    match duty {
        Duty::Nothing => Answered::Nothing,
        Duty::Initialize => Answered::Reply { line: reply(id, greeting(version)) },
        Duty::ListTools => Answered::Reply {
            line: reply(id, object_1(entry("tools", tool_specs()))),
        },
        Duty::Call { call } => Answered::Call { id, call },
        Duty::Reject { message } => Answered::Reply {
            line: reply(id, content(message.as_str(), true)),
        },
        Duty::Unknown => Answered::Reply { line: method_not_found(id) },
    }
}

/// Answers a line. One that is blank or no JSON is passed over.
pub fn answer(line: &str, version: &str) -> (answered: Answered)
    ensures
        answered@ == match words(line@) {
            Some(w) => response(w.id, task(w.method, w.params), version@),
            None => Response::Nothing,
        },
        answered matches Answered::Reply { line } ==> one_line(line@),
{
    match hear(line) {
        Some(heard) => {
            let duty = duty(heard.method.as_str(), &heard.params);
            respond(heard.id, duty, version)
        },
        None => Answered::Nothing,
    }
}

/// The line that tells what came of a tool, or why it failed.
pub open spec fn outcome_text(id: Seq<char>, outcome: Result<Seq<char>, Seq<char>>) -> Seq<char> {
    match outcome {
        Ok(text) => reply_text(id, content_text(text, false)),
        Err(message) => reply_text(id, content_text(message, true)),
    }
}

/// The mathematical form of what came of a tool.
pub open spec fn outcome_of(outcome: Result<String, String>) -> Result<Seq<char>, Seq<char>> {
    match outcome {
        Ok(text) => Ok(text@),
        Err(message) => Err(message@),
    }
}

/// The line that tells what came of a tool, or why it failed.
pub fn tool_reply(id: Value, outcome: Result<String, String>) -> (line: String)
    ensures
        line@ == outcome_text(json_text(id), outcome_of(outcome)),
        one_line(line@),
{
    match outcome {
        Ok(text) => reply(id, content(text.as_str(), false)),
        Err(message) => reply(id, content(message.as_str(), true)),
    }
}

/// What a tool asks of the store.
pub open spec fn asked(call: Tool) -> Req {
    match call {
        Tool::Put { key, value } => Req::Put { key: encode_utf8(key), val: encode_utf8(value) },
        Tool::Get { key } => Req::Get { key: encode_utf8(key) },
        Tool::Delete { key } => Req::Delete { key: encode_utf8(key) },
        Tool::Len => Req::Len,
    }
}

/// What is told of a tool, given the answer of the store to what it asked.
pub open spec fn told(call: Tool, answer: Answer) -> Seq<char> {
    match (call, answer) {
        (Tool::Put { key, .. }, _) => "set "@ + key,
        (Tool::Get { .. }, Answer::Value { val: Some(val) }) => value_text(val@),
        (Tool::Get { .. }, _) => "(nil)"@,
        (Tool::Delete { key }, Answer::Hit { hit: true }) => "deleted "@ + key,
        (Tool::Delete { key }, _) => key + " not found"@,
        (Tool::Len, Answer::Count { n }) => decimal(n as nat),
        (Tool::Len, _) => Seq::empty(),
    }
}

impl ToolCall {
    /// What the tool asks of the store.
    pub fn request(&self) -> (request: Request)
        ensures
            request@ == asked(self@),
    {
        match self {
            ToolCall::Put { key, value } => Request::Put {
                key: slice_to_vec(key.as_str().as_bytes()),
                val: slice_to_vec(value.as_str().as_bytes()),
            },
            ToolCall::Get { key } => Request::Get { key: slice_to_vec(key.as_str().as_bytes()) },
            ToolCall::Delete { key } => Request::Delete {
                key: slice_to_vec(key.as_str().as_bytes()),
            },
            ToolCall::Len => Request::Len,
        }
    }

    /// What is told of the tool, given the answer of the store. `None` where the answer is
    /// not one to what the tool asked.
    pub fn tell(&self, answer: &Answer) -> (text: Option<String>)
        ensures
            match text {
                Some(text) => suits(asked(self@), *answer) && text@ == told(self@, *answer),
                None => !suits(asked(self@), *answer),
            },
    {
        match (self, answer) {
            (ToolCall::Put { key, .. }, Answer::Done) => Some(set_text(key.as_str())),
            (ToolCall::Get { .. }, Answer::Value { val }) => Some(get_text(val)),
            (ToolCall::Delete { key }, Answer::Hit { hit }) => Some(delete_text(key.as_str(), *hit)),
            (ToolCall::Len, Answer::Count { n }) => Some(len_text(*n)),
            _ => None,
        }
    }
}

/// What is told of a value that was set.
pub fn set_text(key: &str) -> (text: String)
    ensures
        text@ == "set "@ + key@,
{
    let mut text = "set ".to_owned();
    text.append(key);
    text
}

/// What is told of a deletion.
pub fn delete_text(key: &str, hit: bool) -> (text: String)
    ensures
        text@ == if hit {
            "deleted "@ + key@
        } else {
            key@ + " not found"@
        },
{
    if hit {
        let mut text = "deleted ".to_owned();
        text.append(key);
        text
    } else {
        let mut text = key.to_owned();
        text.append(" not found");
        text
    }
}

/// What is told of the number of keys.
pub fn len_text(n: usize) -> (text: String)
    ensures
        text@ == decimal(n as nat),
{
    to_decimal(n as u64)
}

/// The text that stands for bytes which are not UTF-8.
pub uninterp spec fn replaced(bytes: Seq<u8>) -> Seq<char>;

/// The text of a value: the bytes as UTF-8, as far as they are.
pub open spec fn value_text(bytes: Seq<u8>) -> Seq<char> {
    if valid_utf8(bytes) {
        decode_utf8(bytes)
    } else {
        replaced(bytes)
    }
}

/// Calls `String::from_utf8_lossy`. Bytes that are UTF-8 become the text that they
/// are; of others, what they become is a function of the bytes.
#[verifier::external_body]
fn lossy(bytes: &[u8]) -> (text: String)
    ensures
        text@ == (if valid_utf8(bytes@) {
            decode_utf8(bytes@)
        } else {
            replaced(bytes@)
        }),
{
    String::from_utf8_lossy(bytes).into_owned()
}

/// What is told of a value that was read.
pub fn get_text(val: &Option<Vec<u8>>) -> (text: String)
    ensures
        text@ == match *val {
            Some(val) => value_text(val@),
            None => "(nil)"@,
        },
{
    match val {
        Some(val) => lossy(val.as_slice()),
        None => "(nil)".to_owned(),
    }
}

/// What an agent stored under a key as text, it reads back as the same text, and what
/// it stored under other keys is still there. All of it is found again when the store
/// is opened the next time.
pub proof fn law_memory_keeps_text(
    world: World,
    key: Seq<char>,
    value: Seq<char>,
    other: Seq<char>,
)
    requires
        in_step(world),
        encode_utf8(key).len() <= MAX_KV,
        encode_utf8(value).len() <= MAX_KV,
        room(world.state, HEADER + encode_utf8(key).len() + encode_utf8(value).len()),
        other != key,
    ensures
        ({
            let after = run(
                world,
                set_moves(world.state, encode_utf8(key), encode_utf8(value)),
            );
            let before = live(world);
            let values = live(after);
            &&& values.contains_key(encode_utf8(key))
            &&& value_text(values[encode_utf8(key)]) == value
            &&& values.contains_key(encode_utf8(other)) == before.contains_key(encode_utf8(other))
            &&& values[encode_utf8(other)] == before[encode_utf8(other)]
            &&& kept(world) ==> values.submap_of(stored(after.disk))
            &&& durable(world) ==> stored(after.disk) == values
        }),
{
    law_set_keeps_the_latest(world, encode_utf8(key), encode_utf8(value));
    encode_utf8_valid_utf8(value);
    encode_utf8_decode_utf8(value);
    encode_utf8_decode_utf8(key);
    encode_utf8_decode_utf8(other);
}

/// The tools are these four, in this order, and require these arguments.
pub proof fn law_tool_list()
    ensures
        tools().len() == 4,
        tools()[0].name == "flint_set"@ && tools()[0].args == seq!["key"@, "value"@],
        tools()[1].name == "flint_get"@ && tools()[1].args == seq!["key"@],
        tools()[2].name == "flint_delete"@ && tools()[2].args == seq!["key"@],
        tools()[3].name == "flint_len"@ && tools()[3].args == Seq::<Seq<char>>::empty(),
        forall|i: int, j: int|
            0 <= i < j < 4 ==> (#[trigger] tools()[i]).name != (#[trigger] tools()[j]).name,
{
    lemma_tool_names();
}

/// The names of the tools differ.
pub proof fn lemma_tool_names()
    ensures
        "flint_set"@ != "flint_get"@,
        "flint_set"@ != "flint_delete"@,
        "flint_set"@ != "flint_len"@,
        "flint_get"@ != "flint_delete"@,
        "flint_get"@ != "flint_len"@,
        "flint_delete"@ != "flint_len"@,
        "key"@ != "value"@,
{
    reveal_strlit("flint_set");
    reveal_strlit("flint_get");
    reveal_strlit("flint_delete");
    reveal_strlit("flint_len");
    reveal_strlit("key");
    reveal_strlit("value");
    assert("flint_set"@[6] == 's');
    assert("flint_get"@[6] == 'g');
    assert("flint_delete"@[6] == 'd');
    assert("flint_len"@[6] == 'l');
    assert("key"@.len() == 3 && "value"@.len() == 5);
}

/// The name is that of a tool that is listed.
pub open spec fn is_listed(name: Seq<char>) -> bool {
    exists|i: int| 0 <= i < tools().len() && (#[trigger] tools()[i]).name == name
}

/// The argument of this name that the parameters hold.
pub open spec fn argument(params: Par, arg: Seq<char>) -> Option<Seq<char>> {
    if arg == "key"@ {
        params.key
    } else if arg == "value"@ {
        params.value
    } else {
        None
    }
}

/// What is told of a tool that there is not.
pub open spec fn unknown_tool(name: Seq<char>) -> Seq<char> {
    "unknown tool '"@ + name + "'"@
}

/// A tool is told to be unknown exactly if it is not listed.
pub proof fn law_unknown_tool(params: Par, name: Seq<char>)
    requires
        params.name == Some(name),
    ensures
        tool_in(Some(params)) == Err::<Tool, Seq<char>>(unknown_tool(name)) <==> !is_listed(name),
{
    law_tool_list();
    lemma_tool_names();
    reveal_strlit("unknown tool '");
    reveal_strlit("flint_set needs a key");
    reveal_strlit("flint_set needs a value");
    reveal_strlit("flint_get needs a key");
    reveal_strlit("flint_delete needs a key");
    assert(unknown_tool(name)[0] == 'u');
    assert("flint_set needs a key"@[0] == 'f');
    assert("flint_set needs a value"@[0] == 'f');
    assert("flint_get needs a key"@[0] == 'f');
    assert("flint_delete needs a key"@[0] == 'f');
    if is_listed(name) {
        let i = choose|i: int| 0 <= i < tools().len() && (#[trigger] tools()[i]).name == name;
        assert(i == 0 || i == 1 || i == 2 || i == 3);
    } else {
        assert(tools()[0].name != name);
        assert(tools()[1].name != name);
        assert(tools()[2].name != name);
        assert(tools()[3].name != name);
    }
}

/// A tool that is listed is called exactly if every argument is there that its listing
/// requires.
pub proof fn law_required_arguments(params: Par, i: int)
    requires
        0 <= i < tools().len(),
        params.name == Some(tools()[i].name),
    ensures
        tool_in(Some(params)) is Ok <==> forall|j: int|
            0 <= j < tools()[i].args.len() ==> argument(
                params,
                #[trigger] tools()[i].args[j],
            ) is Some,
{
    law_tool_list();
    lemma_tool_names();
    let args = tools()[i].args;
    if i < 3 {
        assert(args[0] == "key"@);
    }
    if i == 0 {
        assert(args[1] == "value"@);
    }
    assert forall|j: int| 0 <= j < args.len() implies (#[trigger] args[j] == "key"@) || (i == 0
        && args[j] == "value"@) by {
        assert(j == 0 || j == 1);
    }
}

/// The line is a request that is owed a reply: it is JSON, and its method is a string other
/// than the empty one and than the note that a client is ready.
pub open spec fn owes_reply(line: Seq<char>) -> bool {
    match words(line) {
        Some(w) => w.method != ""@ && w.method != "notifications/initialized"@,
        None => false,
    }
}

/// What is sent about a line, where `outcome` is what came of the tool, if it calls one.
pub open spec fn sent(
    line: Seq<char>,
    version: Seq<char>,
    outcome: Result<Seq<char>, Seq<char>>,
) -> Option<Seq<char>> {
    match words(line) {
        None => None,
        Some(w) => match response(w.id, task(w.method, w.params), version) {
            Response::Nothing => None,
            Response::Reply { line } => Some(line),
            Response::Call { id, .. } => Some(outcome_text(id, outcome)),
        },
    }
}

/// A reply to the request `id`: a result, or the error that there is no such method.
pub open spec fn answers(reply: Seq<char>, id: Seq<char>) -> bool {
    reply == unknown_text(id) || exists|result: Seq<char>| reply == #[trigger] reply_text(id, result)
}

/// A line is answered exactly if it owes a reply, and the reply carries the id of the
/// request.
pub proof fn law_line_is_answered(
    line: Seq<char>,
    version: Seq<char>,
    outcome: Result<Seq<char>, Seq<char>>,
)
    ensures
        sent(line, version, outcome) is Some <==> owes_reply(line),
        sent(line, version, outcome) matches Some(reply) ==> answers(reply, words(line)->0.id),
{
    reveal_strlit("");
    reveal_strlit("initialize");
    reveal_strlit("tools/list");
    reveal_strlit("tools/call");
    reveal_strlit("notifications/initialized");
    assert(""@.len() == 0 && "initialize"@.len() == 10 && "tools/list"@.len() == 10);
    assert("tools/call"@.len() == 10 && "notifications/initialized"@.len() == 25);
    if let Some(w) = words(line) {
        match task(w.method, w.params) {
            Task::Initialize => {
                assert(sent(line, version, outcome) == Some(
                    reply_text(w.id, greeting_text(version)),
                ));
            },
            Task::ListTools => {
                assert(sent(line, version, outcome) == Some(
                    reply_text(w.id, object_text(seq![("tools"@, tools_text())])),
                ));
            },
            Task::Reject { message } => {
                assert(sent(line, version, outcome) == Some(
                    reply_text(w.id, content_text(message, true)),
                ));
            },
            Task::Call { .. } => {
                let result = match outcome {
                    Ok(text) => content_text(text, false),
                    Err(message) => content_text(message, true),
                };
                assert(sent(line, version, outcome) == Some(reply_text(w.id, result)));
            },
            _ => {},
        }
    }
}

/// How many of the lines owe a reply.
pub open spec fn owed(lines: Seq<Seq<char>>) -> nat
    decreases lines.len(),
{
    if lines.len() == 0 {
        0
    } else {
        owed(lines.drop_last()) + (if owes_reply(lines.last()) {
            1nat
        } else {
            0nat
        })
    }
}

/// What is sent in a session with these lines, where `outcomes` is what came of the tool at
/// each line that calls one.
pub open spec fn session(
    lines: Seq<Seq<char>>,
    version: Seq<char>,
    outcomes: Seq<Result<Seq<char>, Seq<char>>>,
) -> Seq<Seq<char>>
    decreases lines.len(),
{
    if lines.len() == 0 {
        Seq::empty()
    } else {
        let n = lines.len() - 1;
        let before = session(lines.drop_last(), version, outcomes);
        match sent(lines[n], version, outcomes[n]) {
            Some(reply) => before.push(reply),
            None => before,
        }
    }
}

/// A session sends exactly one reply for each line that owes one, in the order of the
/// lines, and none for any other line. Each carries the id of its request.
pub proof fn law_session_replies(
    lines: Seq<Seq<char>>,
    version: Seq<char>,
    outcomes: Seq<Result<Seq<char>, Seq<char>>>,
)
    ensures
        session(lines, version, outcomes).len() == owed(lines),
        forall|i: int|
            0 <= i < lines.len() && owes_reply(#[trigger] lines[i]) ==> owed(lines.take(i)) < owed(
                lines,
            ) && answers(
                session(lines, version, outcomes)[owed(lines.take(i)) as int],
                words(lines[i])->0.id,
            ) && Some(session(lines, version, outcomes)[owed(lines.take(i)) as int]) == sent(
                lines[i],
                version,
                outcomes[i],
            ),
    decreases lines.len(),
{
    if lines.len() > 0 {
        let n = lines.len() - 1;
        let fewer = lines.drop_last();
        law_session_replies(fewer, version, outcomes);
        law_line_is_answered(lines[n], version, outcomes[n]);
        assert forall|i: int| 0 <= i < lines.len() && owes_reply(#[trigger] lines[i]) implies owed(
            lines.take(i),
        ) < owed(lines) && answers(
            session(lines, version, outcomes)[owed(lines.take(i)) as int],
            words(lines[i])->0.id,
        ) && Some(session(lines, version, outcomes)[owed(lines.take(i)) as int]) == sent(
            lines[i],
            version,
            outcomes[i],
        ) by {
            if i < n {
                assert(fewer[i] == lines[i]);
                assert(fewer.take(i) =~= lines.take(i));
            } else {
                assert(lines.take(n) =~= fewer);
            }
        }
    }
}

} // verus!
