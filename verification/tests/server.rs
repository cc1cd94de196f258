//! The line protocol.

use flint::record::MAX_KV;
use flint::server::{
    compaction_is_due, fetch, handle, parse_two_lens, read_n, refusal, reply, reply_get,
    reply_to_request, Answer,
    Body, Config, Connections, Request, Turn, MAX_LINE,
};
use std::collections::BTreeMap;
use std::io::{BufRead, Cursor, Read};
use std::time::Duration;

fn bytes(text: &str) -> Vec<u8> {
    text.as_bytes().to_vec()
}

fn call(request: Request) -> Turn {
    Turn::Call { request }
}

fn send(text: &str) -> Turn {
    Turn::Send { reply: bytes(text) }
}

fn last(text: &str) -> Turn {
    Turn::Last { reply: bytes(text) }
}

#[test]
fn text_commands_are_understood() {
    assert_eq!(
        handle("SET k hello there  world\r\n"),
        call(Request::Put { key: bytes("k"), val: bytes("hello there  world") })
    );
    assert_eq!(handle("SET k \n"), call(Request::Put { key: bytes("k"), val: vec![] }));
    assert_eq!(handle("SET  v\n"), call(Request::Put { key: vec![], val: bytes("v") }));
    assert_eq!(handle("GET k\n"), call(Request::Get { key: bytes("k") }));
    assert_eq!(handle("GET two words\n"), call(Request::Get { key: bytes("two words") }));
    assert_eq!(handle("GET\n"), call(Request::Get { key: vec![] }));
    assert_eq!(handle("DEL k"), call(Request::Delete { key: bytes("k") }));
    assert_eq!(handle("LEN\n"), call(Request::Len));
    assert_eq!(handle("COMPACT now\n"), call(Request::Compact));
    assert_eq!(handle("PING\n"), send("PONG\n"));
    assert_eq!(handle("QUIT\n"), Turn::Close);
    assert_eq!(handle(""), Turn::Close);
    assert_eq!(handle("\n"), Turn::Skip);
    assert_eq!(handle("\r\n\r\n"), Turn::Skip);
    assert_eq!(handle(" GET k\n"), Turn::Skip);
}

#[test]
fn the_case_of_a_command_does_not_matter() {
    assert_eq!(
        handle("sEt Key Value\n"),
        call(Request::Put { key: bytes("Key"), val: bytes("Value") })
    );
    assert_eq!(handle("ping"), send("PONG\n"));
    assert_eq!(handle("quit\r\n"), Turn::Close);
}

#[test]
fn text_beyond_ascii_is_kept() {
    assert_eq!(
        handle("SET clé größe ✓\n"),
        call(Request::Put { key: bytes("clé"), val: bytes("größe ✓") })
    );
    assert_eq!(handle("GET ключ\n"), call(Request::Get { key: bytes("ключ") }));
}

#[test]
fn wrong_usage_is_told() {
    assert_eq!(handle("SET k\n"), send("ERR usage: SET <key> <value>\n"));
    assert_eq!(handle("SET\n"), send("ERR usage: SET <key> <value>\n"));
    assert_eq!(handle("BSET 1\n"), send("ERR usage: BSET <klen> <vlen>\n"));
    assert_eq!(handle("BSET x 2\n"), send("ERR usage: BSET <klen> <vlen>\n"));
    assert_eq!(handle("BGET\n"), last("ERR usage: BGET <klen>\n"));
    assert_eq!(handle("BGET -1\n"), last("ERR usage: BGET <klen>\n"));
    assert_eq!(handle("BDEL 1 2\n"), last("ERR usage: BDEL <klen>\n"));
    assert_eq!(handle("nope x\n"), send("ERR unknown command 'NOPE'\n"));
    assert_eq!(handle("über\n"), send("ERR unknown command 'üBER'\n"));
}

#[test]
fn binary_commands_announce_their_bytes() {
    assert_eq!(handle("BSET 3 0\n"), Turn::Fetch { body: Body::Put { klen: 3, vlen: 0 } });
    assert_eq!(handle("bset  +3   4 \n"), Turn::Fetch { body: Body::Put { klen: 3, vlen: 4 } });
    assert_eq!(handle("BGET 5\n"), Turn::Fetch { body: Body::Get { klen: 5 } });
    assert_eq!(handle("BDEL \u{a0}5\t\n"), Turn::Fetch { body: Body::Delete { klen: 5 } });
}

#[test]
fn binary_lengths_are_bounded() {
    let most = MAX_KV;
    let more = MAX_KV + 1;
    assert_eq!(
        handle(&format!("BSET {most} {most}\n")),
        Turn::Fetch { body: Body::Put { klen: most, vlen: most } }
    );
    assert_eq!(handle(&format!("BSET {more} 1\n")), last("ERR length exceeds MAX_KV\n"));
    assert_eq!(handle(&format!("BSET 1 {more}\n")), last("ERR length exceeds MAX_KV\n"));
    assert_eq!(handle(&format!("BGET {more}\n")), last("ERR usage: BGET <klen>\n"));
    assert_eq!(handle(&format!("BDEL {more}\n")), last("ERR usage: BDEL <klen>\n"));
    assert_eq!(
        handle("BSET 99999999999999999999999 1\n"),
        send("ERR usage: BSET <klen> <vlen>\n")
    );
}

#[test]
fn an_endless_line_is_refused() {
    let mut line = "GET ".to_string();
    line.push_str(&"k".repeat(MAX_LINE - 4));
    assert_eq!(handle(&line), last("ERR line too long\n"));
    line.pop();
    line.push('\n');
    assert_eq!(handle(&line), call(Request::Get { key: vec![b'k'; MAX_LINE - 5] }));
}

#[test]
fn two_lengths_are_parsed() {
    assert_eq!(parse_two_lens("1 2"), Some((1, 2)));
    assert_eq!(parse_two_lens("  10   20  "), Some((10, 20)));
    assert_eq!(parse_two_lens("1"), None);
    assert_eq!(parse_two_lens(""), None);
    assert_eq!(parse_two_lens("1\t2"), None);
    assert_eq!(parse_two_lens("1 2 3"), None);
    assert_eq!(parse_two_lens("a 2"), None);
    assert_eq!(parse_two_lens("1 b"), None);
    assert_eq!(parse_two_lens(&format!("{} 0", usize::MAX)), Some((usize::MAX, 0)));
}

#[test]
fn exactly_the_asked_bytes_are_read() {
    assert_eq!(read_n(b"abc", 2), Some(b"ab".to_vec()));
    assert_eq!(read_n(b"abc", 3), Some(b"abc".to_vec()));
    assert_eq!(read_n(b"abc", 0), Some(vec![]));
    assert_eq!(read_n(b"abc", 4), None);
}

#[test]
fn bodies_are_cut_by_their_lengths() {
    assert_eq!(Body::Put { klen: 3, vlen: 4 }.len(), 7);
    assert_eq!(Body::Get { klen: 3 }.len(), 3);
    assert_eq!(Body::Delete { klen: 4 }.len(), 4);
    assert_eq!(
        fetch(Body::Put { klen: 3, vlen: 4 }, b"a \0\n\r\xff more"),
        Some(Request::Put { key: b"a \0".to_vec(), val: b"\n\r\xff ".to_vec() })
    );
    assert_eq!(fetch(Body::Put { klen: 3, vlen: 4 }, b"abcdef"), None);
    assert_eq!(fetch(Body::Put { klen: 3, vlen: 4 }, b"ab"), None);
    assert_eq!(fetch(Body::Get { klen: 2 }, b"ab"), Some(Request::Get { key: b"ab".to_vec() }));
    assert_eq!(fetch(Body::Get { klen: 2 }, b"a"), None);
    assert_eq!(
        fetch(Body::Delete { klen: 1 }, b"\0"),
        Some(Request::Delete { key: b"\0".to_vec() })
    );
    assert_eq!(fetch(Body::Delete { klen: 1 }, b""), None);
}

#[test]
fn answers_are_written_out() {
    assert_eq!(reply(&Answer::Done), b"OK\n");
    assert_eq!(reply(&Answer::Hit { hit: true }), b"1\n");
    assert_eq!(reply(&Answer::Hit { hit: false }), b"0\n");
    assert_eq!(reply(&Answer::Count { n: 1024 }), b"1024\n");
    assert_eq!(reply(&Answer::Value { val: None }), b"nil\n");
    assert_eq!(reply(&Answer::Value { val: Some(b"a\nb".to_vec()) }), b"$3\na\nb\n");
    assert_eq!(reply_get(&Some(vec![])), b"$0\n\n");
    assert_eq!(reply_get(&Some(b"nil".to_vec())), b"$3\nnil\n");
    assert_eq!(reply_get(&None), b"nil\n");
}

fn config(max_connections: usize) -> Config {
    Config {
        port: 6380,
        compact_at_segments: 8,
        compact_interval: Duration::from_secs(30),
        max_connections,
    }
}

#[test]
fn connections_are_bounded() {
    let mut connections = Connections::new(&config(2));
    assert!(connections.enter());
    assert!(connections.enter());
    assert!(!connections.enter());
    connections.leave();
    assert!(connections.enter());
    assert!(!connections.enter());
    assert!(!Connections::new(&config(0)).enter());
    assert_eq!(refusal(), b"ERR too many connections\n");
}

#[test]
fn compaction_is_due_above_the_threshold() {
    let cfg = config(1);
    assert!(!compaction_is_due(8, &cfg));
    assert!(compaction_is_due(9, &cfg));
    assert_eq!(cfg.port, 6380);
    assert_eq!(cfg.compact_interval, Duration::from_secs(30));
}

#[test]
fn an_answer_is_one_to_its_request() {
    let put = Request::Put { key: vec![], val: vec![] };
    let get = Request::Get { key: vec![] };
    let delete = Request::Delete { key: vec![] };
    let value = Answer::Value { val: Some(vec![7]) };
    assert_eq!(reply_to_request(&put, &Answer::Done), Some(b"OK\n".to_vec()));
    assert_eq!(reply_to_request(&Request::Compact, &Answer::Done), Some(b"OK\n".to_vec()));
    assert_eq!(reply_to_request(&get, &value), Some(b"$1\n\x07\n".to_vec()));
    assert_eq!(reply_to_request(&delete, &Answer::Hit { hit: false }), Some(b"0\n".to_vec()));
    assert_eq!(reply_to_request(&Request::Len, &Answer::Count { n: 3 }), Some(b"3\n".to_vec()));
    assert_eq!(reply_to_request(&put, &value), None);
    assert_eq!(reply_to_request(&get, &Answer::Done), None);
    assert_eq!(reply_to_request(&delete, &Answer::Count { n: 1 }), None);
    assert_eq!(reply_to_request(&Request::Len, &Answer::Hit { hit: true }), None);
}

/// Holds a conversation over a store in memory, and gives what was sent to the client and
/// whether the input was taken to its end.
fn converse(input: &[u8]) -> (String, bool) {
    let mut values: BTreeMap<Vec<u8>, Vec<u8>> = BTreeMap::new();
    let mut sent: Vec<u8> = Vec::new();
    let mut r = Cursor::new(input.to_vec());
    loop {
        let mut line = String::new();
        if (&mut r).take(MAX_LINE as u64).read_line(&mut line).is_err() {
            break;
        }
        let request = match handle(&line) {
            Turn::Call { request } => request,
            Turn::Fetch { body } => {
                let mut bytes = Vec::new();
                (&mut r).take(body.len()).read_to_end(&mut bytes).unwrap();
                match fetch(body, &bytes) {
                    Some(request) => request,
                    None => break,
                }
            }
            Turn::Send { reply } => {
                sent.extend(reply);
                continue;
            }
            Turn::Last { reply } => {
                sent.extend(reply);
                break;
            }
            Turn::Skip => continue,
            Turn::Close => break,
        };
        let answer = match &request {
            Request::Put { key, val } => {
                values.insert(key.clone(), val.clone());
                Answer::Done
            }
            Request::Get { key } => Answer::Value { val: values.get(key).cloned() },
            Request::Delete { key } => Answer::Hit { hit: values.remove(key).is_some() },
            Request::Len => Answer::Count { n: values.len() },
            Request::Compact => Answer::Done,
        };
        sent.extend(reply_to_request(&request, &answer).unwrap());
    }
    let whole = r.position() == input.len() as u64;
    (String::from_utf8(sent).unwrap(), whole)
}

#[test]
fn commands_in_a_stream_are_answered_once_each_in_order() {
    let input = b"SET a one two\r\nGET a\nBSET 3 5\nx\ny\nGET\nBGET 3\r\nx\nyLEN\n\nPING\n\
        COMPACT\r\nDEL a\nDEL a\nBDEL 3\nx\nyLEN\nGET a";
    assert_eq!(
        converse(input),
        (
            "OK\n$7\none two\nOK\n$5\n\nGET\n\n2\nPONG\nOK\n1\n0\n1\n0\nnil\n".to_string(),
            true
        )
    );
}

#[test]
fn a_conversation_ends_where_it_is_closed() {
    assert_eq!(converse(b"PING\nQUIT\nPING\n"), ("PONG\n".to_string(), false));
    assert_eq!(
        converse(b"BGET 999999999\nPING\n"),
        ("ERR usage: BGET <klen>\n".to_string(), false)
    );
    assert_eq!(converse(b"PING\nBSET 3 5\nabc"), ("PONG\n".to_string(), true));
    assert_eq!(converse(b"PING\n\xff\xfe\nPING\n"), ("PONG\n".to_string(), false));
    assert_eq!(converse(b""), (String::new(), true));
}
