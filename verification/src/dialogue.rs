//! A whole conversation over the line protocol: how the bytes that a client sends are
//! cut into commands, and that each of them is answered once.

use crate::conversation::{
    ascii, breaks, bset_line, law_binary_key, law_binary_set, law_key_line, law_set_line,
    lemma_ascii, lemma_commands, lemma_digits, lemma_plain_line, unbroken,
};
use crate::decimal::decimal;
use crate::record::MAX_KV;
use crate::server::{
    body_len, fetched, on_line, reply_to, Answer, Body, Next, Req, MAX_LINE,
};
use crate::text::{lemma_until, until};
use vstd::prelude::*;
use vstd::utf8::{encode_utf8, encode_utf8_valid_utf8, valid_utf8, valid_utf8_concat};

verus! {

/// Something that happens in a conversation.
pub enum Event {
    /// The store is asked for this, and its answer is sent.
    Asked { request: Req },
    /// This is sent.
    Told { reply: Seq<u8> },
    /// A blank line is passed over.
    Passed,
    /// This is sent, and the connection is closed.
    Dismissed { reply: Seq<u8> },
    /// The connection is closed.
    Closed,
    /// The connection breaks off: a line is not text, or the input ends before the bytes
    /// that a command announced have come.
    Broken,
}

/// The length of the line at the front of the input, with the line break that ends it. A
/// line is no longer than `MAX_LINE`, and ends with the input where no break does.
pub open spec fn line_len(input: Seq<u8>) -> int {
    let at = until(input, 10u8);
    let len = if at < input.len() {
        at + 1
    } else {
        at
    };
    if len < MAX_LINE {
        len
    } else {
        MAX_LINE as int
    }
}

/// What happens first on this input, and how many bytes of it that takes.
pub open spec fn first(input: Seq<u8>) -> (Event, int) {
    let n = line_len(input);
    let line = input.take(n);
    if valid_utf8(line) {
        match on_line(line) {
            Next::Call { request } => (Event::Asked { request }, n),
            Next::Fetch { body } => {
                let end = n + body_len(body);
                if end <= input.len() {
                    (Event::Asked { request: fetched(body, input.subrange(n, end)) }, end)
                } else {
                    (Event::Broken, input.len() as int)
                }
            },
            Next::Send { reply } => (Event::Told { reply }, n),
            Next::Last { reply } => (Event::Dismissed { reply }, n),
            Next::Skip => (Event::Passed, n),
            Next::Close => (Event::Closed, n),
        }
    } else {
        (Event::Broken, n)
    }
}

/// The conversation ends with this.
pub open spec fn ends(event: Event) -> bool {
    event is Dismissed || event is Closed || event is Broken
}

/// All that happens on this input.
pub open spec fn events(input: Seq<u8>) -> Seq<Event>
    decreases input.len(),
{
    let (event, n) = first(input);
    if !ends(event) && 0 < n <= input.len() {
        seq![event] + events(input.skip(n))
    } else {
        seq![event]
    }
}

/// What is sent about an event, where `answer` is what the store answers if it is asked.
pub open spec fn sent(event: Event, answer: Answer) -> Option<Seq<u8>> {
    match event {
        Event::Asked { .. } => Some(reply_to(answer)),
        Event::Told { reply } => Some(reply),
        Event::Dismissed { reply } => Some(reply),
        _ => None,
    }
}

/// The event is one that a reply is sent about.
pub open spec fn owes_reply(event: Event) -> bool {
    event is Asked || event is Told || event is Dismissed
}

/// How many of the events owe a reply.
pub open spec fn owed(events: Seq<Event>) -> nat
    decreases events.len(),
{
    if events.len() == 0 {
        0
    } else {
        owed(events.drop_last()) + (if owes_reply(events.last()) {
            1nat
        } else {
            0nat
        })
    }
}

/// The replies to these events, where `answers` is what the store answers at each event
/// that asks it.
pub open spec fn replies(events: Seq<Event>, answers: Seq<Answer>) -> Seq<Seq<u8>>
    decreases events.len(),
{
    if events.len() == 0 {
        Seq::empty()
    } else {
        let n = events.len() - 1;
        let before = replies(events.drop_last(), answers);
        match sent(events[n], answers[n]) {
            Some(reply) => before.push(reply),
            None => before,
        }
    }
}

/// A conversation takes the input in order, from its first byte on, without leaving a byte
/// out or taking one twice: what happens on it is what happens first, and then what happens
/// on all that follows the bytes that took. It goes on until it is closed, and then ends.
pub proof fn law_input_is_taken_in_order(input: Seq<u8>)
    ensures
        ({
            let (event, n) = first(input);
            &&& 0 <= n <= input.len()
            &&& !ends(event) ==> n > 0 && events(input) == seq![event] + events(input.skip(n))
            &&& ends(event) ==> events(input) == seq![event]
        }),
        ends(events(input).last()),
        forall|i: int| 0 <= i < events(input).len() - 1 ==> !ends(#[trigger] events(input)[i]),
    decreases input.len(),
{
    let (event, n) = first(input);
    lemma_line_len(input);
    assert(input.take(n).len() == n);
    if input.len() == 0 {
        assert(input.take(0) =~= input);
        assert(valid_utf8(input));
    }
    if !ends(event) {
        law_input_is_taken_in_order(input.skip(n));
        let after = events(input.skip(n));
        assert(events(input) == seq![event] + after);
        assert forall|i: int| 0 <= i < events(input).len() - 1 implies !ends(
            #[trigger] events(input)[i],
        ) by {
            if i > 0 {
                assert(events(input)[i] == after[i - 1]);
            }
        }
    }
}

proof fn lemma_line_len(input: Seq<u8>)
    ensures
        0 <= line_len(input) <= input.len(),
        input.len() > 0 ==> line_len(input) > 0,
{
    lemma_until_bounds(input);
}

proof fn lemma_until_bounds(items: Seq<u8>)
    ensures
        0 <= until(items, 10u8) <= items.len(),
    decreases items.len(),
{
    if items.len() > 0 && items[0] != 10 {
        lemma_until_bounds(items.drop_first());
    }
}

/// A client is sent exactly one reply for each event that owes one, in the order of its
/// commands, and none for any other.
pub proof fn law_replies_in_order(events: Seq<Event>, answers: Seq<Answer>)
    ensures
        replies(events, answers).len() == owed(events),
        forall|i: int|
            0 <= i < events.len() && owes_reply(#[trigger] events[i]) ==> owed(events.take(i))
                < owed(events) && Some(replies(events, answers)[owed(events.take(i)) as int])
                == sent(events[i], answers[i]),
    decreases events.len(),
{
    if events.len() > 0 {
        let n = events.len() - 1;
        let fewer = events.drop_last();
        law_replies_in_order(fewer, answers);
        assert forall|i: int| 0 <= i < events.len() && owes_reply(#[trigger] events[i]) implies owed(
            events.take(i),
        ) < owed(events) && Some(replies(events, answers)[owed(events.take(i)) as int]) == sent(
            events[i],
            answers[i],
        ) by {
            if i < n {
                assert(fewer[i] == events[i]);
                assert(fewer.take(i) =~= events.take(i));
            } else {
                assert(events.take(i) =~= fewer);
            }
        }
    }
}

/// A command that a client may send.
pub enum Command {
    Put { key: Seq<u8>, val: Seq<u8> },
    Get { key: Seq<u8> },
    Delete { key: Seq<u8> },
    BinaryPut { key: Seq<u8>, val: Seq<u8> },
    BinaryGet { key: Seq<u8> },
    BinaryDelete { key: Seq<u8> },
    Len,
    Compact,
    Ping,
}

/// The line of a command, with the line break `end`.
pub open spec fn line_of(command: Command, end: Seq<u8>) -> Seq<u8> {
    match command {
        Command::Put { key, val } => encode_utf8("SET"@) + seq![32u8] + (key + seq![32u8] + val)
            + end,
        Command::Get { key } => encode_utf8("GET"@) + seq![32u8] + key + end,
        Command::Delete { key } => encode_utf8("DEL"@) + seq![32u8] + key + end,
        Command::BinaryPut { key, val } => bset_line(key.len(), val.len(), end),
        Command::BinaryGet { key } => encode_utf8("BGET"@) + (seq![32u8] + encode_utf8(
            decimal(key.len()),
        ) + end),
        Command::BinaryDelete { key } => encode_utf8("BDEL"@) + (seq![32u8] + encode_utf8(
            decimal(key.len()),
        ) + end),
        Command::Len => encode_utf8("LEN"@) + end,
        Command::Compact => encode_utf8("COMPACT"@) + end,
        Command::Ping => encode_utf8("PING"@) + end,
    }
}

/// The bytes that follow the line of a command.
pub open spec fn bytes_behind(command: Command) -> Seq<u8> {
    match command {
        Command::BinaryPut { key, val } => key + val,
        Command::BinaryGet { key } => key,
        Command::BinaryDelete { key } => key,
        _ => Seq::empty(),
    }
}

/// The bytes of a command, with the line break `end`.
pub open spec fn spoken(command: Command, end: Seq<u8>) -> Seq<u8> {
    line_of(command, end) + bytes_behind(command)
}

/// Text without a line feed.
pub open spec fn one_line(text: Seq<u8>) -> bool {
    valid_utf8(text) && forall|i: int| 0 <= i < text.len() ==> #[trigger] text[i] != 10
}

/// The protocol has a place for the keys and values of the command: in a text command they
/// are text on one line, and a key that a value follows has no space; in a binary one they
/// may be any bytes.
pub open spec fn sendable(command: Command, end: Seq<u8>) -> bool {
    &&& end == seq![10u8] || end == seq![13u8, 10u8]
    &&& line_of(command, end).len() <= MAX_LINE
    &&& match command {
        Command::Put { key, val } => {
            &&& one_line(key)
            &&& forall|i: int| 0 <= i < key.len() ==> #[trigger] key[i] != 32
            &&& one_line(val)
            &&& unbroken(val)
        },
        Command::Get { key } => one_line(key) && unbroken(key),
        Command::Delete { key } => one_line(key) && unbroken(key),
        Command::BinaryPut { key, val } => key.len() <= MAX_KV && val.len() <= MAX_KV,
        Command::BinaryGet { key } => key.len() <= MAX_KV,
        Command::BinaryDelete { key } => key.len() <= MAX_KV,
        _ => true,
    }
}

/// What happens on a command.
pub open spec fn meant(command: Command) -> Event {
    match command {
        Command::Put { key, val } => Event::Asked { request: Req::Put { key, val } },
        Command::BinaryPut { key, val } => Event::Asked { request: Req::Put { key, val } },
        Command::Get { key } => Event::Asked { request: Req::Get { key } },
        Command::BinaryGet { key } => Event::Asked { request: Req::Get { key } },
        Command::Delete { key } => Event::Asked { request: Req::Delete { key } },
        Command::BinaryDelete { key } => Event::Asked { request: Req::Delete { key } },
        Command::Len => Event::Asked { request: Req::Len },
        Command::Compact => Event::Asked { request: Req::Compact },
        Command::Ping => Event::Told { reply: encode_utf8("PONG\n"@) },
    }
}

/// The bytes of several commands, one behind the other, each with its line break.
pub open spec fn stream(commands: Seq<Command>, ends: Seq<Seq<u8>>) -> Seq<u8>
    decreases commands.len(),
{
    if commands.len() == 0 {
        Seq::empty()
    } else {
        spoken(commands[0], ends[0]) + stream(commands.drop_first(), ends.drop_first())
    }
}

/// A line is cut off at its line feed, whatever follows it.
proof fn lemma_cut(text: Seq<u8>, end: Seq<u8>, more: Seq<u8>)
    requires
        one_line(text),
        end == seq![10u8] || end == seq![13u8, 10u8],
        (text + end).len() <= MAX_LINE,
    ensures
        line_len(text + end + more) == (text + end).len(),
        (text + end + more).take((text + end).len() as int) == text + end,
        valid_utf8(text + end),
{
    let line = text + end;
    let input = line + more;
    let n = line.len() - 1;
    assert forall|i: int| 0 <= i < n implies #[trigger] input[i] != 10 by {
        if i < text.len() {
            assert(input[i] == text[i]);
        } else {
            assert(input[i] == end[i - text.len()]);
        }
    }
    assert(input[n] == end[end.len() - 1]);
    lemma_until(input, 10u8, n);
    assert(input.take(line.len() as int) =~= line);
    lemma_plain(end);
    valid_utf8_concat(text, end);
}

/// Bytes below 128 are text.
proof fn lemma_plain(bytes: Seq<u8>)
    requires
        forall|i: int| 0 <= i < bytes.len() ==> #[trigger] bytes[i] < 128,
    ensures
        valid_utf8(bytes),
{
    let text = bytes.map_values(|b: u8| b as char);
    assert forall|i: int| 0 <= i < text.len() implies '\0' <= #[trigger] text[i] <= '\u{7f}' by {
        assert(bytes[i] < 128);
    }
    lemma_ascii(text);
    encode_utf8_valid_utf8(text);
    assert forall|i: int| 0 <= i < bytes.len() implies #[trigger] bytes[i] == ascii(text)[i] by {
        assert(bytes[i] < 128);
    }
    assert(ascii(text) =~= bytes);
}

/// A line made of a word, a space and more is text on one line if its parts are.
proof fn lemma_one_line(word: Seq<u8>, tail: Seq<u8>)
    requires
        one_line(word),
        one_line(tail),
    ensures
        one_line(word + seq![32u8] + tail),
{
    let head = word + seq![32u8];
    let text = head + tail;
    lemma_plain(seq![32u8]);
    valid_utf8_concat(word, seq![32u8]);
    valid_utf8_concat(head, tail);
    assert forall|i: int| 0 <= i < text.len() implies #[trigger] text[i] != 10 by {
        if i < word.len() {
            assert(text[i] == word[i]);
        } else if i > word.len() {
            assert(text[i] == tail[i - word.len() - 1]);
        }
    }
}

/// The text of a command's line, without its line break.
spec fn text_of(command: Command) -> Seq<u8> {
    line_of(command, Seq::empty())
}

/// The line of a command is text on one line, and then its line break.
proof fn lemma_text(command: Command, end: Seq<u8>)
    requires
        sendable(command, end),
    ensures
        one_line(text_of(command)),
        line_of(command, end) == text_of(command) + end,
{
    lemma_commands();
    lemma_names();
    assert(line_of(command, end) =~= text_of(command) + end);
    match command {
        Command::Put { key, val } => {
            lemma_one_line(key, val);
            lemma_one_line(encode_utf8("SET"@), key + seq![32u8] + val);
            assert(text_of(command) =~= encode_utf8("SET"@) + seq![32u8] + (key + seq![32u8]
                + val));
        },
        Command::Get { key } => {
            lemma_one_line(encode_utf8("GET"@), key);
            assert(text_of(command) =~= encode_utf8("GET"@) + seq![32u8] + key);
        },
        Command::Delete { key } => {
            lemma_one_line(encode_utf8("DEL"@), key);
            assert(text_of(command) =~= encode_utf8("DEL"@) + seq![32u8] + key);
        },
        Command::BinaryPut { key, val } => {
            let lens = decimal(key.len()) + seq![' '] + decimal(val.len());
            lemma_digits(key.len(), val.len());
            encode_utf8_valid_utf8(lens);
            lemma_one_line(encode_utf8("BSET"@), encode_utf8(lens));
            assert(text_of(command) =~= encode_utf8("BSET"@) + seq![32u8] + encode_utf8(lens));
        },
        Command::BinaryGet { key } => {
            let len = decimal(key.len());
            lemma_digits(key.len(), key.len());
            encode_utf8_valid_utf8(len);
            lemma_one_line(encode_utf8("BGET"@), encode_utf8(len));
            assert(text_of(command) =~= encode_utf8("BGET"@) + seq![32u8] + encode_utf8(len));
        },
        Command::BinaryDelete { key } => {
            let len = decimal(key.len());
            lemma_digits(key.len(), key.len());
            encode_utf8_valid_utf8(len);
            lemma_one_line(encode_utf8("BDEL"@), encode_utf8(len));
            assert(text_of(command) =~= encode_utf8("BDEL"@) + seq![32u8] + encode_utf8(len));
        },
        Command::Len => {
            assert(text_of(command) =~= encode_utf8("LEN"@));
        },
        Command::Compact => {
            assert(text_of(command) =~= encode_utf8("COMPACT"@));
        },
        Command::Ping => {
            assert(text_of(command) =~= encode_utf8("PING"@));
        },
    }
}

/// The names of the commands are text on one line.
proof fn lemma_names()
    ensures
        one_line(encode_utf8("SET"@)),
        one_line(encode_utf8("GET"@)),
        one_line(encode_utf8("DEL"@)),
        one_line(encode_utf8("BSET"@)),
        one_line(encode_utf8("BGET"@)),
        one_line(encode_utf8("BDEL"@)),
        one_line(encode_utf8("LEN"@)),
        one_line(encode_utf8("COMPACT"@)),
        one_line(encode_utf8("PING"@)),
{
    lemma_commands();
    encode_utf8_valid_utf8("SET"@);
    encode_utf8_valid_utf8("GET"@);
    encode_utf8_valid_utf8("DEL"@);
    encode_utf8_valid_utf8("BSET"@);
    encode_utf8_valid_utf8("BGET"@);
    encode_utf8_valid_utf8("BDEL"@);
    encode_utf8_valid_utf8("LEN"@);
    encode_utf8_valid_utf8("COMPACT"@);
    encode_utf8_valid_utf8("PING"@);
}

/// What a command's line asks for.
proof fn lemma_meant(command: Command, end: Seq<u8>)
    requires
        sendable(command, end),
    ensures
        match meant(command) {
            Event::Asked { request } => on_line(line_of(command, end)) == (Next::Call { request })
                && bytes_behind(command).len() == 0 || exists|body: Body|
                on_line(line_of(command, end)) == (Next::Fetch { body }) && #[trigger] body_len(
                    body,
                ) == bytes_behind(command).len() && fetched(body, bytes_behind(command))
                    == request,
            Event::Told { reply } => on_line(line_of(command, end)) == (Next::Send { reply })
                && bytes_behind(command).len() == 0,
            _ => false,
        },
{
    assert(breaks(end));
    assert(line_of(command, end).last() == 10) by {
        assert(line_of(command, end) =~= text_of(command) + end);
    }
    match command {
        Command::Put { key, val } => {
            law_set_line(key, val, end);
        },
        Command::Get { key } => {
            law_key_line(key, end);
        },
        Command::Delete { key } => {
            lemma_same_len(key, end);
            law_key_line(key, end);
        },
        Command::BinaryPut { key, val } => {
            let body = Body::Put { klen: key.len() as usize, vlen: val.len() as usize };
            law_binary_set(key, val, end, Seq::empty());
            assert(key + val + Seq::empty() =~= key + val);
            assert(body_len(body) == bytes_behind(command).len());
        },
        Command::BinaryGet { key } => {
            let body = Body::Get { klen: key.len() as usize };
            law_binary_key(key, end, Seq::empty());
            assert(key + Seq::empty() =~= key);
            assert(body_len(body) == bytes_behind(command).len());
        },
        Command::BinaryDelete { key } => {
            let body = Body::Delete { klen: key.len() as usize };
            lemma_same_len(key, end);
            law_binary_key(key, end, Seq::empty());
            assert(key + Seq::empty() =~= key);
            assert(body_len(body) == bytes_behind(command).len());
        },
        _ => {
            lemma_plain_line(end);
        },
    }
}

/// The lines that read a key are as long as those that delete it, and end alike.
proof fn lemma_same_len(key: Seq<u8>, end: Seq<u8>)
    requires
        end.len() > 0,
    ensures
        line_of(Command::Get { key }, end).len() == line_of(Command::Delete { key }, end).len(),
        line_of(Command::BinaryGet { key }, end).len() == line_of(
            Command::BinaryDelete { key },
            end,
        ).len(),
        line_of(Command::Get { key }, end).last() == end.last(),
        line_of(Command::BinaryGet { key }, end).last() == end.last(),
{
    lemma_commands();
}

/// A command is read as what it means, and takes exactly its own bytes, whatever is sent
/// behind it.
pub proof fn law_command_is_cut(command: Command, end: Seq<u8>, more: Seq<u8>)
    requires
        sendable(command, end),
    ensures
        first(spoken(command, end) + more) == (
            meant(command),
            spoken(command, end).len() as int,
        ),
{
    let line = line_of(command, end);
    let behind = bytes_behind(command);
    let input = spoken(command, end) + more;
    let n = line.len() as int;
    lemma_text(command, end);
    lemma_cut(text_of(command), end, behind + more);
    assert(input =~= line + (behind + more));
    lemma_meant(command, end);
    assert(input.subrange(n, n + behind.len()) =~= behind);
}

/// Several commands, sent one behind the other, are cut where each of them ends, and
/// happen once each, in their order. Then comes what happens on the input behind them.
pub proof fn law_commands_in_order(commands: Seq<Command>, ends: Seq<Seq<u8>>, more: Seq<u8>)
    requires
        commands.len() <= ends.len(),
        forall|i: int| 0 <= i < commands.len() ==> sendable(#[trigger] commands[i], ends[i]),
    ensures
        events(stream(commands, ends) + more) == commands.map_values(
            |command: Command| meant(command),
        ) + events(more),
    decreases commands.len(),
{
    let all = commands.map_values(|command: Command| meant(command));
    if commands.len() == 0 {
        assert(stream(commands, ends) + more =~= more);
        assert(all + events(more) =~= events(more));
    } else {
        let others = commands.drop_first();
        let behind = stream(others, ends.drop_first()) + more;
        let input = stream(commands, ends) + more;
        let n = spoken(commands[0], ends[0]).len() as int;
        assert(input =~= spoken(commands[0], ends[0]) + behind);
        law_command_is_cut(commands[0], ends[0], behind);
        assert forall|i: int| 0 <= i < others.len() implies sendable(
            #[trigger] others[i],
            ends.drop_first()[i],
        ) by {
            assert(sendable(commands[i + 1], ends[i + 1]));
        }
        law_commands_in_order(others, ends.drop_first(), more);
        law_input_is_taken_in_order(input);
        assert(input.skip(n) =~= behind);
        assert(all =~= seq![meant(commands[0])] + others.map_values(
            |command: Command| meant(command),
        ));
        assert(events(input) =~= all + events(more));
    }
}

/// A client that sends several commands and then closes its side is sent one reply to each
/// of them, in their order, and nothing else.
pub proof fn law_commands_are_answered(
    commands: Seq<Command>,
    ends: Seq<Seq<u8>>,
    answers: Seq<Answer>,
)
    requires
        commands.len() <= ends.len(),
        forall|i: int| 0 <= i < commands.len() ==> sendable(#[trigger] commands[i], ends[i]),
    ensures
        replies(events(stream(commands, ends)), answers) == Seq::new(
            commands.len(),
            |i: int| sent(meant(commands[i]), answers[i])->0,
        ),
{
    let all = commands.map_values(|command: Command| meant(command));
    let none = Seq::<u8>::empty();
    law_commands_in_order(commands, ends, none);
    assert(stream(commands, ends) + none =~= stream(commands, ends));
    law_input_is_taken_in_order(none);
    assert(first(none).0 is Closed) by {
        lemma_line_len(none);
        assert(none.take(0) =~= none);
        assert(valid_utf8(none));
    }
    assert(events(none) == seq![Event::Closed]);
    let happened = all + seq![Event::Closed];
    assert(happened.drop_last() =~= all);
    assert(happened.last() == Event::Closed);
    lemma_all_owe(commands, answers, commands.len() as int);
    assert(all.take(commands.len() as int) =~= all);
}

/// Each of the first `n` commands has its reply.
proof fn lemma_all_owe(commands: Seq<Command>, answers: Seq<Answer>, n: int)
    requires
        0 <= n <= commands.len(),
    ensures
        replies(commands.map_values(|command: Command| meant(command)).take(n), answers)
            == Seq::new(n as nat, |i: int| sent(meant(commands[i]), answers[i])->0),
    decreases n,
{
    let all = commands.map_values(|command: Command| meant(command));
    let some = all.take(n);
    if n == 0 {
        assert(some =~= Seq::empty());
    } else {
        lemma_all_owe(commands, answers, n - 1);
        assert(some.drop_last() =~= all.take(n - 1));
        assert(some[n - 1] == meant(commands[n - 1]));
        assert(sent(meant(commands[n - 1]), answers[n - 1]) is Some);
    }
    assert(replies(some, answers) =~= Seq::new(
        n as nat,
        |i: int| sent(meant(commands[i]), answers[i])->0,
    ));
}

} // verus!
