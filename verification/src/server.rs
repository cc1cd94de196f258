//! The line protocol: what a client's line asks for, and how it is answered.
//!
//! Text commands (a key ends at the first space, a value is the rest of the line):
//!   `SET <key> <value>`, `GET <key>`, `DEL <key>`, `LEN`, `COMPACT`, `PING`, `QUIT`
//!
//! Binary commands (length-prefixed, so that keys and values may hold any bytes):
//!   `BSET <klen> <vlen>`, `BGET <klen>`, `BDEL <klen>`, each followed by the bytes

use crate::decimal::{chars_of, decimal, number, parse_number, to_decimal};
use crate::keydir::same_bytes;
use crate::record::{push_bytes, MAX_KV};
use crate::text::{find, find_byte, trim, trimmed, until};
use std::time::Duration;
use vstd::prelude::*;
use vstd::slice::{slice_subrange, slice_to_vec};
use vstd::utf8::{
    decode_utf8, encode_utf8, is_char_boundary, is_continuation_byte, length_of_first_scalar,
    pop_first_scalar, valid_utf8,
};

verus! {

/// The longest line that is read.
pub const MAX_LINE: usize = 16 * 1024 * 1024;

/// How a server is set up.
pub struct Config {
    pub port: u16,
    /// Compact once the store holds more than this many segments.
    pub compact_at_segments: usize,
    /// How often to look whether it does.
    pub compact_interval: Duration,
    /// How many connections to serve at a time.
    pub max_connections: usize,
}

/// Something that a client asks of the store.
#[derive(Debug, PartialEq, Eq)]
pub enum Request {
    Put { key: Vec<u8>, val: Vec<u8> },
    Get { key: Vec<u8> },
    Delete { key: Vec<u8> },
    Len,
    Compact,
}

/// The mathematical form of a request.
pub enum Req {
    Put { key: Seq<u8>, val: Seq<u8> },
    Get { key: Seq<u8> },
    Delete { key: Seq<u8> },
    Len,
    Compact,
}

impl View for Request {
    type V = Req;

    open spec fn view(&self) -> Req {
        match *self {
            Request::Put { key, val } => Req::Put { key: key@, val: val@ },
            Request::Get { key } => Req::Get { key: key@ },
            Request::Delete { key } => Req::Delete { key: key@ },
            Request::Len => Req::Len,
            Request::Compact => Req::Compact,
        }
    }
}

/// The bytes that follow the line of a binary command.
#[derive(Debug, Clone, Copy, PartialEq, Eq)]
pub enum Body {
    /// A key and a value, to be set.
    Put { klen: usize, vlen: usize },
    /// A key, to be read.
    Get { klen: usize },
    /// A key, to be deleted.
    Delete { klen: usize },
}

/// What a connection does about a line.
#[derive(Debug, PartialEq, Eq)]
pub enum Turn {
    /// Ask this of the store, and send its answer.
    Call { request: Request },
    /// Read the bytes that follow; they hold the request.
    Fetch { body: Body },
    /// Send this, and read the next line.
    Send { reply: Vec<u8> },
    /// Send this, and close the connection.
    Last { reply: Vec<u8> },
    /// Read the next line.
    Skip,
    /// Close the connection.
    Close,
}

/// The mathematical form of a turn.
pub enum Next {
    Call { request: Req },
    Fetch { body: Body },
    Send { reply: Seq<u8> },
    Last { reply: Seq<u8> },
    Skip,
    Close,
}

impl View for Turn {
    type V = Next;

    open spec fn view(&self) -> Next {
        match *self {
            Turn::Call { request } => Next::Call { request: request@ },
            Turn::Fetch { body } => Next::Fetch { body },
            Turn::Send { reply } => Next::Send { reply: reply@ },
            Turn::Last { reply } => Next::Last { reply: reply@ },
            Turn::Skip => Next::Skip,
            Turn::Close => Next::Close,
        }
    }
}

/// What the store answers to a request.
#[derive(Debug, PartialEq, Eq)]
pub enum Answer {
    /// It is done.
    Done,
    /// The value, if the key has one.
    Value { val: Option<Vec<u8>> },
    /// Whether the key was there.
    Hit { hit: bool },
    /// The number of live keys.
    Count { n: usize },
}

/// A line without the line breaks that it ends in.
pub open spec fn stripped(line: Seq<u8>) -> Seq<u8>
    decreases line.len(),
{
    if line.len() > 0 && (line.last() == 13 || line.last() == 10) {
        stripped(line.drop_last())
    } else {
        line
    }
}

/// A byte with the letters `a` to `z` turned into `A` to `Z`.
pub open spec fn upper_byte(b: u8) -> u8 {
    if 97 <= b <= 122 {
        (b - 32) as u8
    } else {
        b
    }
}

/// Bytes with the letters `a` to `z` turned into `A` to `Z`.
pub open spec fn upper(bytes: Seq<u8>) -> Seq<u8> {
    bytes.map_values(|b: u8| upper_byte(b))
}

/// The command of a line without line breaks: its first word, in capitals.
pub open spec fn command(text: Seq<u8>) -> Seq<u8> {
    upper(text.take(until(text, 32)))
}

/// What follows the first space of a line; nothing where it has none.
pub open spec fn rest(text: Seq<u8>) -> Seq<u8> {
    let at = until(text, 32);
    if at < text.len() {
        text.skip(at + 1)
    } else {
        Seq::empty()
    }
}

/// The length that a text spells, if it spells one.
pub open spec fn one_len(text: Seq<char>) -> Option<nat> {
    number(trimmed(text), usize::MAX as nat)
}

/// The two lengths that a text spells, with a space between them, if it does.
pub open spec fn two_lens(text: Seq<char>) -> Option<(nat, nat)> {
    let t = trimmed(text);
    let at = until(t, ' ');
    if at < t.len() {
        match (one_len(t.take(at)), one_len(t.skip(at + 1))) {
            (Some(a), Some(b)) => Some((a, b)),
            _ => None,
        }
    } else {
        None
    }
}

/// What is done about `SET`.
pub open spec fn on_set(rest: Seq<u8>) -> Next {
    let at = until(rest, 32);
    if at < rest.len() {
        Next::Call { request: Req::Put { key: rest.take(at), val: rest.skip(at + 1) } }
    } else {
        Next::Send { reply: encode_utf8("ERR usage: SET <key> <value>\n"@) }
    }
}

/// What is done about `BSET`.
pub open spec fn on_bset(rest: Seq<u8>) -> Next {
    match two_lens(decode_utf8(rest)) {
        None => Next::Send { reply: encode_utf8("ERR usage: BSET <klen> <vlen>\n"@) },
        Some((klen, vlen)) => if klen > MAX_KV || vlen > MAX_KV {
            Next::Last { reply: encode_utf8("ERR length exceeds MAX_KV\n"@) }
        } else {
            Next::Fetch { body: Body::Put { klen: klen as usize, vlen: vlen as usize } }
        },
    }
}

/// The length of the key that follows, if `rest` spells one that is not above
/// `MAX_KV`.
pub open spec fn key_len_in(rest: Seq<u8>) -> Option<usize> {
    match one_len(decode_utf8(rest)) {
        Some(n) => if n <= MAX_KV {
            Some(n as usize)
        } else {
            None
        },
        None => None,
    }
}

/// What is done about `BGET`.
pub open spec fn on_bget(rest: Seq<u8>) -> Next {
    match key_len_in(rest) {
        Some(klen) => Next::Fetch { body: Body::Get { klen } },
        None => Next::Last { reply: encode_utf8("ERR usage: BGET <klen>\n"@) },
    }
}

/// What is done about `BDEL`.
pub open spec fn on_bdel(rest: Seq<u8>) -> Next {
    match key_len_in(rest) {
        Some(klen) => Next::Fetch { body: Body::Delete { klen } },
        None => Next::Last { reply: encode_utf8("ERR usage: BDEL <klen>\n"@) },
    }
}

/// What is done about a command.
pub open spec fn on_command(cmd: Seq<u8>, rest: Seq<u8>) -> Next {
    if cmd == encode_utf8("SET"@) {
        on_set(rest)
    } else if cmd == encode_utf8("GET"@) {
        Next::Call { request: Req::Get { key: rest } }
    } else if cmd == encode_utf8("DEL"@) {
        Next::Call { request: Req::Delete { key: rest } }
    } else if cmd == encode_utf8("BSET"@) {
        on_bset(rest)
    } else if cmd == encode_utf8("BGET"@) {
        on_bget(rest)
    } else if cmd == encode_utf8("BDEL"@) {
        on_bdel(rest)
    } else if cmd == encode_utf8("LEN"@) {
        Next::Call { request: Req::Len }
    } else if cmd == encode_utf8("COMPACT"@) {
        Next::Call { request: Req::Compact }
    } else if cmd == encode_utf8("PING"@) {
        Next::Send { reply: encode_utf8("PONG\n"@) }
    } else if cmd == encode_utf8("QUIT"@) {
        Next::Close
    } else if cmd.len() == 0 {
        Next::Skip
    } else {
        Next::Send {
            reply: encode_utf8("ERR unknown command '"@) + cmd + encode_utf8("'\n"@),
        }
    }
}

/// What is done about a line, with the line break that ends it. A line without any
/// byte is the end of the input, and one of `MAX_LINE` bytes that does not end is
/// too long.
pub open spec fn on_line(line: Seq<u8>) -> Next {
    if line.len() == 0 {
        Next::Close
    } else if line.len() == MAX_LINE && line.last() != 10 {
        Next::Last { reply: encode_utf8("ERR line too long\n"@) }
    } else {
        on_command(command(stripped(line)), rest(stripped(line)))
    }
}

/// The number of bytes that a body has.
pub open spec fn body_len(body: Body) -> int {
    match body {
        Body::Put { klen, vlen } => klen + vlen,
        Body::Get { klen } => klen as int,
        Body::Delete { klen } => klen as int,
    }
}

/// The request that the bytes of a body hold.
pub open spec fn fetched(body: Body, bytes: Seq<u8>) -> Req {
    match body {
        Body::Put { klen, vlen } => Req::Put {
            key: bytes.take(klen as int),
            val: bytes.subrange(klen as int, klen + vlen),
        },
        Body::Get { klen } => Req::Get { key: bytes.take(klen as int) },
        Body::Delete { klen } => Req::Delete { key: bytes.take(klen as int) },
    }
}

/// The reply that carries a value: its length, and the bytes as they are.
pub open spec fn value_reply(val: Option<Seq<u8>>) -> Seq<u8> {
    match val {
        Some(val) => encode_utf8("$"@ + decimal(val.len()) + "\n"@) + val + encode_utf8("\n"@),
        None => encode_utf8("nil\n"@),
    }
}

/// The reply to an answer of the store.
pub open spec fn reply_to(answer: Answer) -> Seq<u8> {
    match answer {
        Answer::Done => encode_utf8("OK\n"@),
        Answer::Value { val } => value_reply(
            match val {
                Some(val) => Some(val@),
                None => None,
            },
        ),
        Answer::Hit { hit } => if hit {
            encode_utf8("1\n"@)
        } else {
            encode_utf8("0\n"@)
        },
        Answer::Count { n } => encode_utf8(decimal(n as nat) + "\n"@),
    }
}

/// The bytes of a text.
fn bytes_of(text: &str) -> (bytes: Vec<u8>)
    ensures
        bytes@ == encode_utf8(text@),
{
    slice_to_vec(text.as_bytes())
}

/// The length of a line without the line breaks that it ends in.
fn strip(line: &[u8]) -> (end: usize)
    ensures
        end <= line@.len(),
        line@.take(end as int) == stripped(line@),
        end < line@.len() ==> line@[end as int] == 13 || line@[end as int] == 10,
{
    let mut end: usize = line.len();
    assert(line@.take(end as int) =~= line@);
    while end > 0 && (line[end - 1] == 13 || line[end - 1] == 10)
        invariant
            end <= line@.len(),
            stripped(line@.take(end as int)) == stripped(line@),
            end < line@.len() ==> line@[end as int] == 13 || line@[end as int] == 10,
        decreases end,
    {
        assert(line@.take(end as int).drop_last() =~= line@.take(end - 1));
        end -= 1;
    }
    end
}

/// Turns the letters `a` to `z` into `A` to `Z`.
fn capitals(bytes: &[u8]) -> (r: Vec<u8>)
    ensures
        r@ == upper(bytes@),
{
    let mut r: Vec<u8> = Vec::new();
    let mut i: usize = 0;
    while i < bytes.len()
        invariant
            i <= bytes@.len(),
            r@ == upper(bytes@.take(i as int)),
        decreases bytes@.len() - i,
    {
        let b = bytes[i];
        r.push(
            if 97 <= b && b <= 122 {
                b - 32
            } else {
                b
            },
        );
        i += 1;
        assert(r@ =~= upper(bytes@.take(i as int)));
    }
    assert(bytes@.take(i as int) =~= bytes@);
    r
}

/// Reads one length.
fn parse_len(text: &[char]) -> (n: Option<usize>)
    ensures
        match n {
            Some(x) => one_len(text@) == Some(x as nat),
            None => one_len(text@) is None,
        },
{
    match parse_number(trim(text), usize::MAX as u64) {
        Some(n) => Some(n as usize),
        None => None,
    }
}

/// Reads two lengths with a space between them. `None` where the text is anything
/// else.
pub fn parse_two_lens(rest: &str) -> (lens: Option<(usize, usize)>)
    ensures
        match lens {
            Some((a, b)) => two_lens(rest@) == Some((a as nat, b as nat)),
            None => two_lens(rest@) is None,
        },
{
    let chars = chars_of(rest);
    let text = trim(chars.as_slice());
    let at = find(text, ' ');
    if at == text.len() {
        return None;
    }
    let first = slice_subrange(text, 0, at);
    let second = slice_subrange(text, at + 1, text.len());
    assert(first@ =~= trimmed(rest@).take(at as int));
    assert(second@ =~= trimmed(rest@).skip(at + 1));
    match (parse_len(first), parse_len(second)) {
        (Some(a), Some(b)) => Some((a, b)),
        _ => None,
    }
}

/// The first `n` bytes of the input, or `None` where it ends before that.
pub fn read_n(input: &[u8], n: usize) -> (bytes: Option<Vec<u8>>)
    ensures
        match bytes {
            Some(bytes) => n <= input@.len() && bytes@ == input@.take(n as int),
            None => input@.len() < n,
        },
{
    if n <= input.len() {
        let bytes = slice_to_vec(slice_subrange(input, 0, n));
        assert(bytes@ =~= input@.take(n as int));
        Some(bytes)
    } else {
        None
    }
}

impl Body {
    /// The number of bytes that the body has.
    pub fn len(&self) -> (n: u64)
        requires
            body_len(*self) <= u64::MAX,
        ensures
            n == body_len(*self),
    {
        match *self {
            Body::Put { klen, vlen } => klen as u64 + vlen as u64,
            Body::Get { klen } => klen as u64,
            Body::Delete { klen } => klen as u64,
        }
    }
}

/// The request that the bytes of a body hold, or `None` where the input ended before
/// the body did.
pub fn fetch(body: Body, input: &[u8]) -> (request: Option<Request>)
    ensures
        match request {
            Some(request) => body_len(body) <= input@.len() && request@ == fetched(body, input@),
            None => input@.len() < body_len(body),
        },
{
    match body {
        Body::Put { klen, vlen } => {
            let key = match read_n(input, klen) {
                Some(key) => key,
                None => {
                    return None;
                },
            };
            match read_n(slice_subrange(input, klen, input.len()), vlen) {
                Some(val) => {
                    assert(val@ =~= input@.subrange(klen as int, klen + vlen));
                    Some(Request::Put { key, val })
                },
                None => None,
            }
        },
        Body::Get { klen } => match read_n(input, klen) {
            Some(key) => Some(Request::Get { key }),
            None => None,
        },
        Body::Delete { klen } => match read_n(input, klen) {
            Some(key) => Some(Request::Delete { key }),
            None => None,
        },
    }
}

/// The reply that carries a value.
pub fn reply_get(val: &Option<Vec<u8>>) -> (reply: Vec<u8>)
    ensures
        reply@ == value_reply(
            match *val {
                Some(val) => Some(val@),
                None => None,
            },
        ),
{
    match val {
        Some(val) => {
            let mut head = String::new();
            head.append("$");
            head.append(to_decimal(val.len() as u64).as_str());
            head.append("\n");
            assert(head@ =~= "$"@ + decimal(val@.len()) + "\n"@);
            let mut reply = bytes_of(head.as_str());
            push_bytes(&mut reply, val.as_slice());
            push_bytes(&mut reply, "\n".as_bytes());
            reply
        },
        None => bytes_of("nil\n"),
    }
}

/// The reply to an answer of the store.
pub fn reply(answer: &Answer) -> (reply: Vec<u8>)
    ensures
        reply@ == reply_to(*answer),
{
    match answer {
        Answer::Done => bytes_of("OK\n"),
        Answer::Value { val } => reply_get(val),
        Answer::Hit { hit } => if *hit {
            bytes_of("1\n")
        } else {
            bytes_of("0\n")
        },
        Answer::Count { n } => {
            let mut text = to_decimal(*n as u64);
            text.append("\n");
            bytes_of(text.as_str())
        },
    }
}

/// The answer is one to this request.
pub open spec fn suits(request: Req, answer: Answer) -> bool {
    match request {
        Req::Put { .. } => answer is Done,
        Req::Get { .. } => answer is Value,
        Req::Delete { .. } => answer is Hit,
        Req::Len => answer is Count,
        Req::Compact => answer is Done,
    }
}

/// The reply to a request, given the answer of the store. `None` where the answer is not
/// one to this request.
pub fn reply_to_request(request: &Request, answer: &Answer) -> (r: Option<Vec<u8>>)
    ensures
        match r {
            Some(bytes) => suits(request@, *answer) && bytes@ == reply_to(*answer),
            None => !suits(request@, *answer),
        },
{
    let suited = match (request, answer) {
        (Request::Put { .. }, Answer::Done) => true,
        (Request::Get { .. }, Answer::Value { .. }) => true,
        (Request::Delete { .. }, Answer::Hit { .. }) => true,
        (Request::Len, Answer::Count { .. }) => true,
        (Request::Compact, Answer::Done) => true,
        _ => false,
    };
    if suited {
        Some(reply(answer))
    } else {
        None
    }
}

/// The length of the key that follows, where the text spells one that is not above
/// `MAX_KV`.
fn parse_key_len(rest: &str) -> (klen: Option<usize>)
    ensures
        klen == key_len_in(encode_utf8(rest@)),
{
    proof {
        vstd::utf8::encode_utf8_decode_utf8(rest@);
    }
    let chars = chars_of(rest);
    match parse_len(chars.as_slice()) {
        Some(n) => if n <= MAX_KV {
            Some(n)
        } else {
            None
        },
        None => None,
    }
}

/// What is done about `BSET`.
fn handle_bset(rest: &str) -> (turn: Turn)
    ensures
        turn@ == on_bset(encode_utf8(rest@)),
{
    proof {
        vstd::utf8::encode_utf8_decode_utf8(rest@);
    }
    match parse_two_lens(rest) {
        None => Turn::Send { reply: bytes_of("ERR usage: BSET <klen> <vlen>\n") },
        Some((klen, vlen)) => if klen > MAX_KV || vlen > MAX_KV {
            Turn::Last { reply: bytes_of("ERR length exceeds MAX_KV\n") }
        } else {
            Turn::Fetch { body: Body::Put { klen, vlen } }
        },
    }
}

/// What is done about `SET`.
fn handle_set(rest: &str) -> (turn: Turn)
    ensures
        turn@ == on_set(encode_utf8(rest@)),
{
    let bytes = rest.as_bytes();
    let at = find_byte(bytes, 32);
    if at < bytes.len() {
        let key = slice_to_vec(slice_subrange(bytes, 0, at));
        let val = slice_to_vec(slice_subrange(bytes, at + 1, bytes.len()));
        assert(key@ =~= bytes@.take(at as int));
        assert(val@ =~= bytes@.skip(at + 1));
        Turn::Call { request: Request::Put { key, val } }
    } else {
        Turn::Send { reply: bytes_of("ERR usage: SET <key> <value>\n") }
    }
}

/// What is done about a command.
fn handle_command(cmd: &[u8], rest: &str) -> (turn: Turn)
    ensures
        turn@ == on_command(cmd@, encode_utf8(rest@)),
{
    if same_bytes(cmd, "SET".as_bytes()) {
        handle_set(rest)
    } else if same_bytes(cmd, "GET".as_bytes()) {
        Turn::Call { request: Request::Get { key: bytes_of(rest) } }
    } else if same_bytes(cmd, "DEL".as_bytes()) {
        Turn::Call { request: Request::Delete { key: bytes_of(rest) } }
    } else if same_bytes(cmd, "BSET".as_bytes()) {
        handle_bset(rest)
    } else if same_bytes(cmd, "BGET".as_bytes()) {
        match parse_key_len(rest) {
            Some(klen) => Turn::Fetch { body: Body::Get { klen } },
            None => Turn::Last { reply: bytes_of("ERR usage: BGET <klen>\n") },
        }
    } else if same_bytes(cmd, "BDEL".as_bytes()) {
        match parse_key_len(rest) {
            Some(klen) => Turn::Fetch { body: Body::Delete { klen } },
            None => Turn::Last { reply: bytes_of("ERR usage: BDEL <klen>\n") },
        }
    } else if same_bytes(cmd, "LEN".as_bytes()) {
        Turn::Call { request: Request::Len }
    } else if same_bytes(cmd, "COMPACT".as_bytes()) {
        Turn::Call { request: Request::Compact }
    } else if same_bytes(cmd, "PING".as_bytes()) {
        Turn::Send { reply: bytes_of("PONG\n") }
    } else if same_bytes(cmd, "QUIT".as_bytes()) {
        Turn::Close
    } else if cmd.len() == 0 {
        Turn::Skip
    } else {
        let mut reply = bytes_of("ERR unknown command '");
        push_bytes(&mut reply, cmd);
        push_bytes(&mut reply, "'\n".as_bytes());
        Turn::Send { reply }
    }
}

/// A character begins behind a space.
proof fn lemma_boundary_after_space(bytes: Seq<u8>, at: int)
    requires
        valid_utf8(bytes),
        0 <= at < bytes.len(),
        bytes[at] == 32,
    ensures
        is_char_boundary(bytes, at + 1),
    decreases bytes.len(),
{
    let first = length_of_first_scalar(bytes);
    let more = pop_first_scalar(bytes);
    assert(at < first ==> at == 0 && first == 1);
    if at < first {
        assert(is_char_boundary(more, 0));
    } else {
        lemma_boundary_after_space(more, at - first);
    }
}

/// What a connection does about a line that it read, with the line break that ends
/// it. At the end of the input the line is empty.
pub fn handle(line: &str) -> (turn: Turn)
    ensures
        turn@ == on_line(encode_utf8(line@)),
{
    broadcast use vstd::utf8::encode_utf8_valid_utf8;
    broadcast use vstd::utf8::is_char_boundary_iff_not_is_continuation_byte;
    broadcast use vstd::utf8::is_char_boundary_start_end_of_seq;

    let bytes = line.as_bytes();
    if bytes.len() == 0 {
        return Turn::Close;
    }
    if bytes.len() == MAX_LINE && bytes[bytes.len() - 1] != 10 {
        return Turn::Last { reply: bytes_of("ERR line too long\n") };
    }
    let end = strip(bytes);
    assert(is_char_boundary(encode_utf8(line@), end as int)) by {
        if end < bytes@.len() {
            assert(!is_continuation_byte(bytes@[end as int]));
        }
    }
    let (text, _) = line.split_at(end);
    assert(encode_utf8(text@) =~= stripped(bytes@));
    let head = text.as_bytes();
    let at = find_byte(head, 32);
    let word = slice_subrange(head, 0, at);
    assert(word@ =~= head@.take(at as int));
    let cmd = capitals(word);
    if at < head.len() {
        assert(is_char_boundary(head@, at + 1)) by {
            assert(!is_continuation_byte(head@[at as int]));
            lemma_boundary_after_space(head@, at as int);
        }
        let (_, tail) = text.split_at(at + 1);
        assert(encode_utf8(tail@) =~= rest(stripped(bytes@)));
        handle_command(cmd.as_slice(), tail)
    } else {
        assert(encode_utf8(""@) =~= rest(stripped(bytes@))) by {
            reveal_strlit("");
        }
        handle_command(cmd.as_slice(), "")
    }
}

/// A store with this many segments is to be compacted, where it may hold `most`.
pub open spec fn is_due(segments: nat, most: nat) -> bool {
    segments > most
}

/// One connection more can be served, where `active` are and `max` may be.
pub open spec fn admits(active: nat, max: nat) -> bool {
    active < max
}

/// Compaction begins with the first segment that is too many, and not before: a store that
/// holds as many as it may is left alone, with one more it is compacted, and with any
/// number above that as well.
pub proof fn law_compaction_begins_above_the_threshold(segments: nat, more: nat, most: nat)
    ensures
        segments <= most ==> !is_due(segments, most),
        is_due(most + 1 + more, most),
{
}

/// A connection is refused exactly if as many as may be are served, so that never more are.
pub proof fn law_connections_are_bounded(active: nat, max: nat)
    requires
        active <= max,
    ensures
        admits(active, max) ==> active + 1 <= max,
        !admits(active, max) ==> active == max,
{
}

/// Whether a store with this many segments is to be compacted.
pub fn compaction_is_due(segments: usize, cfg: &Config) -> (due: bool)
    ensures
        due == is_due(segments as nat, cfg.compact_at_segments as nat),
        due == (segments > cfg.compact_at_segments),
{
    segments > cfg.compact_at_segments
}

/// What a client is sent that cannot be served.
pub fn refusal() -> (reply: Vec<u8>)
    ensures
        reply@ == encode_utf8("ERR too many connections\n"@),
{
    bytes_of("ERR too many connections\n")
}

/// The connections that are served: never more than a set number.
pub struct Connections {
    active: usize,
    max: usize,
}

impl Connections {
    /// How many are served.
    pub closed spec fn active(&self) -> nat {
        self.active as nat
    }

    /// How many may be.
    pub closed spec fn max(&self) -> nat {
        self.max as nat
    }

    /// No more are served than may be.
    pub open spec fn wf(&self) -> bool {
        self.active() <= self.max()
    }

    /// None are served yet.
    pub fn new(cfg: &Config) -> (r: Connections)
        ensures
            r.wf(),
            r.active() == 0,
            r.max() == cfg.max_connections,
    {
        Connections { active: 0, max: cfg.max_connections }
    }

    /// Takes one more, and tells whether that was possible. It is refused exactly if
    /// as many as may be are served already.
    pub fn enter(&mut self) -> (admitted: bool)
        requires
            old(self).wf(),
        ensures
            final(self).wf(),
            final(self).max() == old(self).max(),
            admitted == admits(old(self).active(), old(self).max()),
            admitted == (old(self).active() < old(self).max()),
            final(self).active() == old(self).active() + (if admitted {
                1nat
            } else {
                0nat
            }),
    {
        if self.active < self.max {
            self.active += 1;
            true
        } else {
            false
        }
    }

    /// One that was served is gone.
    pub fn leave(&mut self)
        requires
            old(self).wf(),
            old(self).active() > 0,
        ensures
            final(self).wf(),
            final(self).max() == old(self).max(),
            final(self).active() == old(self).active() - 1,
    {
        self.active -= 1;
    }
}

} // verus!
