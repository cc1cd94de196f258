//! The tools for agents.

use flint::mcp::{
    answer, call_tool, delete_text, duty, get_text, hear, len_text, respond, set_text,
    tool_reply, tool_specs,
    Answered, Duty, Params, ToolCall,
};

use flint::server::{Answer, Request};

const VERSION: &str = "1.2.3";

fn line(answered: Answered) -> String {
    match answered {
        Answered::Reply { line } => line,
        Answered::Nothing => panic!("no reply"),
        Answered::Call { .. } => panic!("a call"),
    }
}

fn ask(request: &str) -> String {
    line(answer(request, VERSION))
}

fn params(name: Option<&str>, key: Option<&str>, value: Option<&str>) -> Option<Params> {
    Some(Params {
        name: name.map(str::to_string),
        key: key.map(str::to_string),
        value: value.map(str::to_string),
    })
}

fn wrong(message: &str) -> Result<ToolCall, String> {
    Err(message.to_string())
}

#[test]
fn the_greeting() {
    assert_eq!(
        ask(r#"{"jsonrpc":"2.0","id":1,"method":"initialize","params":{}}"#),
        r#"{"id":1,"jsonrpc":"2.0","result":{"capabilities":{"tools":{}},"protocolVersion":"2024-11-05","serverInfo":{"name":"flint","version":"1.2.3"}}}"#
    );
}

#[test]
fn the_list_of_tools() {
    assert_eq!(
        ask(r#"{"id":"a","method":"tools/list"}"#),
        concat_lines(&[
            r#"{"id":"a","jsonrpc":"2.0","result":{"tools":["#,
            r#"{"description":"Store a value under a key in Flint (persists across sessions).","#,
            r#""inputSchema":{"properties":{"key":{"type":"string"},"value":{"type":"string"}},"#,
            r#""required":["key","value"],"type":"object"},"name":"flint_set"},"#,
            r#"{"description":"Read the value stored under a key. Returns (nil) if absent.","#,
            r#""inputSchema":{"properties":{"key":{"type":"string"}},"#,
            r#""required":["key"],"type":"object"},"name":"flint_get"},"#,
            r#"{"description":"Delete a key from Flint.","#,
            r#""inputSchema":{"properties":{"key":{"type":"string"}},"#,
            r#""required":["key"],"type":"object"},"name":"flint_delete"},"#,
            r#"{"description":"Return the number of live keys stored in Flint.","#,
            r#""inputSchema":{"properties":{},"type":"object"},"name":"flint_len"}]}}"#,
        ])
    );
}

fn concat_lines(lines: &[&str]) -> String {
    lines.concat()
}

#[test]
fn some_lines_are_not_answered() {
    for request in [
        "",
        "   \t",
        "not json",
        "{",
        "{}",
        "[]",
        "7",
        r#"{"id":1}"#,
        r#"{"id":1,"method":""}"#,
        r#"{"id":1,"method":5}"#,
        r#"{"method":"notifications/initialized"}"#,
    ] {
        assert!(matches!(answer(request, VERSION), Answered::Nothing), "{request}");
    }
}

#[test]
fn an_unknown_method_is_an_error() {
    assert_eq!(
        ask(r#"{"id":[1,{"b":2.5,"a":null}],"method":"tools/drop"}"#),
        r#"{"error":{"code":-32601,"message":"method not found"},"id":[1,{"a":null,"b":2.5}],"jsonrpc":"2.0"}"#
    );
    assert_eq!(
        ask(r#"{"method":"x"}"#),
        r#"{"error":{"code":-32601,"message":"method not found"},"id":null,"jsonrpc":"2.0"}"#
    );
}

#[test]
fn tool_calls_are_read() {
    let request = r#"{"id":7,"method":"tools/call","params":{"name":"flint_set","arguments":{"key":"k\"é","value":"v\n"}}}"#;
    match answer(request, VERSION) {
        Answered::Call { id, call } => {
            assert_eq!(id.to_string(), "7");
            assert_eq!(call, ToolCall::Put { key: "k\"é".into(), value: "v\n".into() });
            assert_eq!(
                tool_reply(id, Ok(set_text("k\"é"))),
                r#"{"id":7,"jsonrpc":"2.0","result":{"content":[{"text":"set k\"é","type":"text"}]}}"#
            );
        }
        _ => panic!("no call"),
    }
}

#[test]
fn wrong_calls_are_told() {
    assert_eq!(
        ask(r#"{"id":1,"method":"tools/call"}"#),
        r#"{"id":1,"jsonrpc":"2.0","result":{"content":[{"text":"missing params","type":"text"}],"isError":true}}"#
    );
    assert_eq!(
        ask(r#"{"id":1,"method":"tools/call","params":{"name":"flint_get","arguments":[1]}}"#),
        r#"{"id":1,"jsonrpc":"2.0","result":{"content":[{"text":"flint_get needs a key","type":"text"}],"isError":true}}"#
    );
}

#[test]
fn parameters_are_checked() {
    assert_eq!(call_tool(&None), wrong("missing params"));
    assert_eq!(call_tool(&params(None, Some("k"), None)), wrong("missing tool name"));
    assert_eq!(
        call_tool(&params(Some("flint_set"), None, Some("v"))),
        wrong("flint_set needs a key")
    );
    assert_eq!(
        call_tool(&params(Some("flint_set"), Some("k"), None)),
        wrong("flint_set needs a value")
    );
    assert_eq!(call_tool(&params(Some("flint_get"), None, None)), wrong("flint_get needs a key"));
    assert_eq!(
        call_tool(&params(Some("flint_delete"), None, None)),
        wrong("flint_delete needs a key")
    );
    assert_eq!(call_tool(&params(Some("rm"), None, None)), wrong("unknown tool 'rm'"));
    assert_eq!(
        call_tool(&params(Some("flint_set"), Some("k"), Some("v"))),
        Ok(ToolCall::Put { key: "k".into(), value: "v".into() })
    );
    assert_eq!(
        call_tool(&params(Some("flint_get"), Some("k"), None)),
        Ok(ToolCall::Get { key: "k".into() })
    );
    assert_eq!(
        call_tool(&params(Some("flint_delete"), Some("k"), Some("x"))),
        Ok(ToolCall::Delete { key: "k".into() })
    );
    assert_eq!(call_tool(&params(Some("flint_len"), None, None)), Ok(ToolCall::Len));
}

#[test]
fn methods_are_told_apart() {
    assert_eq!(duty("initialize", &None), Duty::Initialize);
    assert_eq!(duty("tools/list", &None), Duty::ListTools);
    assert_eq!(
        duty("tools/call", &None),
        Duty::Reject { message: "missing params".into() }
    );
    assert_eq!(
        duty("tools/call", &params(Some("flint_len"), None, None)),
        Duty::Call { call: ToolCall::Len }
    );
    assert_eq!(duty("notifications/initialized", &None), Duty::Nothing);
    assert_eq!(duty("", &None), Duty::Nothing);
    assert_eq!(duty("Initialize", &None), Duty::Unknown);
}

#[test]
fn requests_are_heard() {
    let heard = hear(
        r#"{"id":null,"method":"m","params":{"name":"n","arguments":{"key":1,"value":"v"}}}"#,
    )
    .unwrap();
    assert!(heard.id.is_null());
    assert_eq!(heard.method, "m");
    assert_eq!(heard.params, params(Some("n"), None, Some("v")));
    assert!(hear("  ").is_none());
    assert!(hear("{]").is_none());
    let heard = hear("5").unwrap();
    assert_eq!(heard.method, "");
    assert_eq!(heard.params, None);
}

#[test]
fn the_id_comes_back() {
    let id = serde_json::from_str::<serde_json::Value>(r#""x\ty""#).unwrap();
    assert_eq!(
        line(respond(id, Duty::Unknown, VERSION)),
        r#"{"error":{"code":-32601,"message":"method not found"},"id":"x\ty","jsonrpc":"2.0"}"#
    );
}

#[test]
fn results_are_put_into_words() {
    assert_eq!(set_text("k"), "set k");
    assert_eq!(delete_text("k", true), "deleted k");
    assert_eq!(delete_text("k", false), "k not found");
    assert_eq!(len_text(12), "12");
    assert_eq!(get_text(&None), "(nil)");
    assert_eq!(get_text(&Some("größe ✓".as_bytes().to_vec())), "größe ✓");
    assert_eq!(get_text(&Some(b"a\xffb".to_vec())), "a\u{fffd}b");
}

#[test]
fn text_in_replies_is_escaped() {
    let id = serde_json::Value::from(0);
    let text = "\"\\\u{8}\t\n\u{c}\r\u{1}\u{1f}\u{7f}é/";
    assert_eq!(
        tool_reply(id, Err(text.to_string())),
        format!(
            "{}{}{}",
            r#"{"id":0,"jsonrpc":"2.0","result":{"content":[{"text":""#,
            "\\\"\\\\\\b\\t\\n\\f\\r\\u0001\\u001f\u{7f}é/",
            r#"","type":"text"}],"isError":true}}"#
        )
    );
}

#[test]
fn changes_are_flushed() {
    assert!(ToolCall::Put { key: "k".into(), value: "v".into() }.flushes());
    assert!(ToolCall::Delete { key: "k".into() }.flushes());
    assert!(!ToolCall::Get { key: "k".into() }.flushes());
    assert!(!ToolCall::Len.flushes());
}

#[test]
fn tools_ask_the_store_and_tell_its_answer() {
    let put = ToolCall::Put { key: "k".into(), value: "é".into() };
    let get = ToolCall::Get { key: "k".into() };
    let delete = ToolCall::Delete { key: "k".into() };
    assert_eq!(put.request(), Request::Put { key: b"k".to_vec(), val: "é".as_bytes().to_vec() });
    assert_eq!(get.request(), Request::Get { key: b"k".to_vec() });
    assert_eq!(delete.request(), Request::Delete { key: b"k".to_vec() });
    assert_eq!(ToolCall::Len.request(), Request::Len);
    assert_eq!(put.tell(&Answer::Done).as_deref(), Some("set k"));
    let value = Answer::Value { val: Some("é".as_bytes().to_vec()) };
    assert_eq!(get.tell(&value).as_deref(), Some("é"));
    assert_eq!(get.tell(&Answer::Value { val: None }).as_deref(), Some("(nil)"));
    assert_eq!(delete.tell(&Answer::Hit { hit: true }).as_deref(), Some("deleted k"));
    assert_eq!(delete.tell(&Answer::Hit { hit: false }).as_deref(), Some("k not found"));
    assert_eq!(ToolCall::Len.tell(&Answer::Count { n: 2 }).as_deref(), Some("2"));
    assert_eq!(put.tell(&value), None);
    assert_eq!(ToolCall::Len.tell(&Answer::Done), None);
}

#[test]
fn listed_tools_are_known_and_others_are_not() {
    let listed = tool_specs();
    let tools = listed.as_array().unwrap();
    let names: Vec<&str> = tools.iter().map(|t| t["name"].as_str().unwrap()).collect();
    assert_eq!(names, ["flint_set", "flint_get", "flint_delete", "flint_len"]);
    for tool in tools {
        let name = tool["name"].as_str();
        let required: Vec<&str> = match tool["inputSchema"]["required"].as_array() {
            Some(args) => args.iter().map(|a| a.as_str().unwrap()).collect(),
            None => vec![],
        };
        for key in [None, Some("k")] {
            for value in [None, Some("v")] {
                let there = required.iter().all(|a| match *a {
                    "key" => key.is_some(),
                    "value" => value.is_some(),
                    other => panic!("{other}"),
                });
                assert_eq!(call_tool(&params(name, key, value)).is_ok(), there);
            }
        }
    }
    assert_eq!(call_tool(&params(Some("flint_"), None, None)), wrong("unknown tool 'flint_'"));
}

#[test]
fn a_session_answers_in_order() {
    let lines = [
        r#"{"id":1,"method":"initialize"}"#,
        r#"{"method":"notifications/initialized"}"#,
        "",
        r#"{"id":"two\nlines","method":"nope"}"#,
        r#"{"id":3,"method":"tools/call"}"#,
    ];
    let replies: Vec<String> = lines
        .iter()
        .filter_map(|request| match answer(request, VERSION) {
            Answered::Reply { line } => Some(line),
            _ => None,
        })
        .collect();
    assert_eq!(replies.len(), 3);
    assert!(replies[0].starts_with(r#"{"id":1,"#));
    assert!(replies[1].contains(r#""id":"two\nlines""#));
    assert!(replies[2].starts_with(r#"{"id":3,"#));
    assert!(replies.iter().all(|reply| !reply.contains('\n')));
}
