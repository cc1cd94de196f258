//! What each line of the line protocol asks for, whatever case its command is written in
//! and whatever stands behind it.

use crate::conversation::{
    ascii, breaks, lemma_ascii, lemma_commands, lemma_len, lemma_line, lemma_stripped, lemma_word,
    short, unbroken,
};
use crate::decimal::{decimal, is_digit, value};
use crate::record::MAX_KV;
use crate::server::{
    command, on_line, one_len, rest, stripped, two_lens, upper, upper_byte, Body, Next, Req,
};
use crate::text::{is_space, law_trimmed_between, lemma_until, trimmed, until};
use vstd::prelude::*;
use vstd::utf8::{decode_utf8, encode_utf8};

verus! {

/// The word is the name, whatever the case of its letters.
pub open spec fn names(word: Seq<u8>, name: Seq<u8>) -> bool {
    &&& word.len() == name.len()
    &&& forall|i: int|
        0 <= i < name.len() ==> #[trigger] word[i] == name[i] || (65 <= name[i] <= 90 && word[i]
            == name[i] + 32)
}

/// No byte is a small letter.
spec fn in_capitals(name: Seq<u8>) -> bool {
    forall|i: int| 0 <= i < name.len() ==> !(97 <= #[trigger] name[i] <= 122)
}

proof fn lemma_named(word: Seq<u8>, name: Seq<u8>)
    requires
        in_capitals(name),
    ensures
        names(word, name) <==> upper(word) == name,
{
    if names(word, name) {
        assert forall|i: int| 0 <= i < name.len() implies #[trigger] upper(word)[i] == name[i] by {
            assert(word[i] == name[i] || (65 <= name[i] <= 90 && word[i] == name[i] + 32));
            assert(!(97 <= name[i] <= 122));
        }
        assert(upper(word) =~= name);
    }
    if upper(word) == name {
        assert forall|i: int| 0 <= i < name.len() implies #[trigger] word[i] == name[i] || (65
            <= name[i] <= 90 && word[i] == name[i] + 32) by {
            assert(upper(word)[i] == upper_byte(word[i]));
        }
    }
}

/// The names of all commands.
pub open spec fn is_command(word: Seq<u8>) -> bool {
    ||| names(word, seq![83u8, 69u8, 84u8])
    ||| names(word, seq![71u8, 69u8, 84u8])
    ||| names(word, seq![68u8, 69u8, 76u8])
    ||| names(word, seq![66u8, 83u8, 69u8, 84u8])
    ||| names(word, seq![66u8, 71u8, 69u8, 84u8])
    ||| names(word, seq![66u8, 68u8, 69u8, 76u8])
    ||| names(word, seq![76u8, 69u8, 78u8])
    ||| names(word, seq![67u8, 79u8, 77u8, 80u8, 65u8, 67u8, 84u8])
    ||| names(word, seq![80u8, 73u8, 78u8, 71u8])
    ||| names(word, seq![81u8, 85u8, 73u8, 84u8])
}

proof fn lemma_quit()
    ensures
        encode_utf8("QUIT"@) == seq![81u8, 85u8, 73u8, 84u8],
{
    reveal_strlit("QUIT");
    lemma_ascii("QUIT"@);
    assert(ascii("QUIT"@) =~= seq![81u8, 85u8, 73u8, 84u8]);
}

/// How a line is cut, and which name its command has.
proof fn lemma_cut(word: Seq<u8>, tail: Seq<u8>, end: Seq<u8>)
    requires
        forall|i: int| 0 <= i < word.len() ==> #[trigger] word[i] != 32,
        unbroken(tail),
        breaks(end),
    ensures
        ({
            let text = word + seq![32u8] + tail;
            &&& stripped(text + end) == text
            &&& command(text) == upper(word)
            &&& rest(text) == tail
        }),
        names(word, seq![83u8, 69u8, 84u8]) <==> upper(word) == encode_utf8("SET"@),
        names(word, seq![71u8, 69u8, 84u8]) <==> upper(word) == encode_utf8("GET"@),
        names(word, seq![68u8, 69u8, 76u8]) <==> upper(word) == encode_utf8("DEL"@),
        names(word, seq![66u8, 83u8, 69u8, 84u8]) <==> upper(word) == encode_utf8("BSET"@),
        names(word, seq![66u8, 71u8, 69u8, 84u8]) <==> upper(word) == encode_utf8("BGET"@),
        names(word, seq![66u8, 68u8, 69u8, 76u8]) <==> upper(word) == encode_utf8("BDEL"@),
        names(word, seq![76u8, 69u8, 78u8]) <==> upper(word) == encode_utf8("LEN"@),
        names(word, seq![67u8, 79u8, 77u8, 80u8, 65u8, 67u8, 84u8]) <==> upper(word)
            == encode_utf8("COMPACT"@),
        names(word, seq![80u8, 73u8, 78u8, 71u8]) <==> upper(word) == encode_utf8("PING"@),
        names(word, seq![81u8, 85u8, 73u8, 84u8]) <==> upper(word) == encode_utf8("QUIT"@),
{
    lemma_commands();
    lemma_quit();
    lemma_line(word, tail, end);
    lemma_named(word, encode_utf8("SET"@));
    lemma_named(word, encode_utf8("GET"@));
    lemma_named(word, encode_utf8("DEL"@));
    lemma_named(word, encode_utf8("BSET"@));
    lemma_named(word, encode_utf8("BGET"@));
    lemma_named(word, encode_utf8("BDEL"@));
    lemma_named(word, encode_utf8("LEN"@));
    lemma_named(word, encode_utf8("COMPACT"@));
    lemma_named(word, encode_utf8("PING"@));
    lemma_named(word, encode_utf8("QUIT"@));
}

/// The names of the commands differ from each other.
proof fn lemma_distinct(word: Seq<u8>)
    ensures
        names(word, seq![83u8, 69u8, 84u8]) ==> word.len() == 3 && (word[0] == 83 || word[0]
            == 115),
        names(word, seq![71u8, 69u8, 84u8]) ==> word.len() == 3 && (word[0] == 71 || word[0]
            == 103),
        names(word, seq![68u8, 69u8, 76u8]) ==> word.len() == 3 && (word[0] == 68 || word[0]
            == 100),
        names(word, seq![76u8, 69u8, 78u8]) ==> word.len() == 3 && (word[0] == 76 || word[0]
            == 108),
        names(word, seq![66u8, 83u8, 69u8, 84u8]) ==> word.len() == 4 && (word[0] == 66 || word[0]
            == 98) && (word[1] == 83 || word[1] == 115),
        names(word, seq![66u8, 71u8, 69u8, 84u8]) ==> word.len() == 4 && (word[0] == 66 || word[0]
            == 98) && (word[1] == 71 || word[1] == 103),
        names(word, seq![66u8, 68u8, 69u8, 76u8]) ==> word.len() == 4 && (word[0] == 66 || word[0]
            == 98) && (word[1] == 68 || word[1] == 100),
        names(word, seq![80u8, 73u8, 78u8, 71u8]) ==> word.len() == 4 && (word[0] == 80 || word[0]
            == 112),
        names(word, seq![81u8, 85u8, 73u8, 84u8]) ==> word.len() == 4 && (word[0] == 81 || word[0]
            == 113),
        names(word, seq![67u8, 79u8, 77u8, 80u8, 65u8, 67u8, 84u8]) ==> word.len() == 7,
{
}

/// `GET` and `DEL`, in letters of either case, take all that follows for the key; `LEN`,
/// `COMPACT`, `PING` and `QUIT` do not look at what follows.
pub proof fn law_simple_commands(word: Seq<u8>, tail: Seq<u8>, end: Seq<u8>)
    requires
        forall|i: int| 0 <= i < word.len() ==> #[trigger] word[i] != 32,
        unbroken(tail),
        breaks(end),
        short(word + seq![32u8] + tail + end),
    ensures
        ({
            let next = on_line(word + seq![32u8] + tail + end);
            &&& names(word, seq![71u8, 69u8, 84u8]) ==> next == (Next::Call {
                request: Req::Get { key: tail },
            })
            &&& names(word, seq![68u8, 69u8, 76u8]) ==> next == (Next::Call {
                request: Req::Delete { key: tail },
            })
            &&& names(word, seq![76u8, 69u8, 78u8]) ==> next == (Next::Call { request: Req::Len })
            &&& names(word, seq![67u8, 79u8, 77u8, 80u8, 65u8, 67u8, 84u8]) ==> next == (
            Next::Call { request: Req::Compact })
            &&& names(word, seq![80u8, 73u8, 78u8, 71u8]) ==> next == (Next::Send {
                reply: seq![80u8, 79u8, 78u8, 71u8, 10u8],
            })
            &&& names(word, seq![81u8, 85u8, 73u8, 84u8]) ==> next == Next::Close
        }),
{
    lemma_cut(word, tail, end);
    lemma_distinct(word);
    reveal_strlit("PONG\n");
    lemma_ascii("PONG\n"@);
    assert(ascii("PONG\n"@) =~= seq![80u8, 79u8, 78u8, 71u8, 10u8]);
}

/// `SET`, in letters of either case, takes what stands before the first space for the key
/// and all that follows that space for the value; without a space it tells its usage.
pub proof fn law_set_command(word: Seq<u8>, tail: Seq<u8>, end: Seq<u8>, at: int)
    requires
        names(word, seq![83u8, 69u8, 84u8]),
        unbroken(tail),
        breaks(end),
        short(word + seq![32u8] + tail + end),
        0 <= at <= tail.len(),
        forall|i: int| 0 <= i < at ==> #[trigger] tail[i] != 32,
        at < tail.len() ==> tail[at] == 32,
    ensures
        on_line(word + seq![32u8] + tail + end) == if at < tail.len() {
            Next::Call { request: Req::Put { key: tail.take(at), val: tail.skip(at + 1) } }
        } else {
            Next::Send { reply: encode_utf8("ERR usage: SET <key> <value>\n"@) }
        },
{
    lemma_three(word);
    lemma_cut(word, tail, end);
    lemma_distinct(word);
    lemma_until(tail, 32u8, at);
}

/// No letter is a space.
proof fn lemma_three(word: Seq<u8>)
    requires
        names(word, seq![83u8, 69u8, 84u8]),
    ensures
        forall|i: int| 0 <= i < word.len() ==> #[trigger] word[i] != 32,
{
    assert forall|i: int| 0 <= i < word.len() implies #[trigger] word[i] != 32 by {
        assert(i == 0 || i == 1 || i == 2);
    }
}

/// `BSET`, in letters of either case, announces as many bytes of key and value as the two
/// lengths behind it say. Where one is above the limit the connection is closed, since what
/// follows could not be told from commands; where they are not two lengths the usage is told.
pub proof fn law_bset_command(word: Seq<u8>, tail: Seq<u8>, end: Seq<u8>)
    requires
        forall|i: int| 0 <= i < word.len() ==> #[trigger] word[i] != 32,
        names(word, seq![66u8, 83u8, 69u8, 84u8]),
        unbroken(tail),
        breaks(end),
        short(word + seq![32u8] + tail + end),
    ensures
        ({
            let next = on_line(word + seq![32u8] + tail + end);
            match two_lens(decode_utf8(tail)) {
                Some((klen, vlen)) => if klen <= MAX_KV && vlen <= MAX_KV {
                    next == (Next::Fetch {
                        body: Body::Put { klen: klen as usize, vlen: vlen as usize },
                    })
                } else {
                    next == (Next::Last { reply: encode_utf8("ERR length exceeds MAX_KV\n"@) })
                },
                None => next == (Next::Send {
                    reply: encode_utf8("ERR usage: BSET <klen> <vlen>\n"@),
                }),
            }
        }),
{
    lemma_cut(word, tail, end);
    lemma_distinct(word);
}

/// `BGET` and `BDEL`, in letters of either case, announce as many bytes of key as the length
/// behind them says. Where that is above the limit or no length the connection is closed,
/// since what follows could not be told from commands.
pub proof fn law_binary_key_commands(word: Seq<u8>, tail: Seq<u8>, end: Seq<u8>)
    requires
        forall|i: int| 0 <= i < word.len() ==> #[trigger] word[i] != 32,
        unbroken(tail),
        breaks(end),
        short(word + seq![32u8] + tail + end),
    ensures
        ({
            let next = on_line(word + seq![32u8] + tail + end);
            let len = one_len(decode_utf8(tail));
            let fine = len is Some && len->0 <= MAX_KV;
            let klen = len->0 as usize;
            &&& names(word, seq![66u8, 71u8, 69u8, 84u8]) ==> next == if fine {
                Next::Fetch { body: Body::Get { klen } }
            } else {
                Next::Last { reply: encode_utf8("ERR usage: BGET <klen>\n"@) }
            }
            &&& names(word, seq![66u8, 68u8, 69u8, 76u8]) ==> next == if fine {
                Next::Fetch { body: Body::Delete { klen } }
            } else {
                Next::Last { reply: encode_utf8("ERR usage: BDEL <klen>\n"@) }
            }
        }),
{
    lemma_cut(word, tail, end);
    lemma_distinct(word);
}

/// The word in capitals.
pub open spec fn in_large(word: Seq<u8>) -> Seq<u8> {
    Seq::new(
        word.len(),
        |i: int|
            if 97 <= word[i] <= 122 {
                (word[i] - 32) as u8
            } else {
                word[i]
            },
    )
}

/// A word that is no command is told to be unknown, in capitals, and the conversation goes
/// on; a line that begins with a space is passed over.
pub proof fn law_unknown_command(word: Seq<u8>, tail: Seq<u8>, end: Seq<u8>)
    requires
        forall|i: int| 0 <= i < word.len() ==> #[trigger] word[i] != 32,
        !is_command(word),
        unbroken(tail),
        breaks(end),
        short(word + seq![32u8] + tail + end),
    ensures
        on_line(word + seq![32u8] + tail + end) == if word.len() > 0 {
            Next::Send {
                reply: encode_utf8("ERR unknown command '"@) + in_large(word) + encode_utf8(
                    "'\n"@,
                ),
            }
        } else {
            Next::Skip
        },
{
    lemma_cut(word, tail, end);
    assert(upper(word) =~= in_large(word));
}

/// A command alone on its line is the same as one with nothing behind its space.
pub proof fn law_bare_command(word: Seq<u8>, end: Seq<u8>)
    requires
        word.len() > 0,
        forall|i: int| 0 <= i < word.len() ==> #[trigger] word[i] != 32,
        unbroken(word),
        breaks(end),
        short(word + end),
        short(word + seq![32u8] + end),
    ensures
        on_line(word + end) == on_line(word + seq![32u8] + end),
{
    lemma_word(word, end);
    lemma_line(word, Seq::empty(), end);
    assert(word + seq![32u8] + Seq::empty() =~= word + seq![32u8]);
}

/// A line without any byte is the end of the input; one of line breaks alone is passed over;
/// and one that reaches the longest length without an end is refused.
pub proof fn law_lines_without_a_command(line: Seq<u8>)
    ensures
        line.len() == 0 ==> on_line(line) == Next::Close,
        line.len() > 0 && breaks(line) && short(line) ==> on_line(line) == Next::Skip,
        line.len() == 16 * 1024 * 1024 && line.last() != 10 ==> on_line(line) == (Next::Last {
            reply: encode_utf8("ERR line too long\n"@),
        }),
{
    if line.len() > 0 && breaks(line) && short(line) {
        lemma_stripped(Seq::empty(), line);
        assert(Seq::<u8>::empty() + line =~= line);
        let none = Seq::<u8>::empty();
        assert(until(none, 32u8) == 0);
        assert(none.take(0) =~= none);
        assert(upper(none) =~= none);
        lemma_commands();
        lemma_quit();
    }
}

/// All of these are white space.
pub open spec fn blank(text: Seq<char>) -> bool {
    forall|i: int| 0 <= i < text.len() ==> is_space(#[trigger] text[i])
}

/// A length is read whatever white space stands around it.
pub proof fn law_one_length(n: nat, before: Seq<char>, behind: Seq<char>)
    requires
        n <= usize::MAX,
        blank(before),
        blank(behind),
    ensures
        one_len(before + decimal(n) + behind) == Some(n),
{
    lemma_len(n);
    let text = decimal(n);
    assert(is_digit(text[0]) && is_digit(text[text.len() - 1]));
    law_trimmed_between(before, text, behind);
}

/// Two lengths are read whatever white space stands around them, as long as the first of
/// it between them is a space.
pub proof fn law_two_lengths(
    a: nat,
    b: nat,
    before: Seq<char>,
    middle: Seq<char>,
    behind: Seq<char>,
)
    requires
        a <= usize::MAX,
        b <= usize::MAX,
        blank(before),
        blank(middle),
        blank(behind),
    ensures
        two_lens(before + decimal(a) + seq![' '] + middle + decimal(b) + behind) == Some((a, b)),
{
    let text = decimal(a) + seq![' '] + middle + decimal(b);
    let x = decimal(a);
    let y = decimal(b);
    lemma_len(a);
    lemma_len(b);
    assert(is_digit(x[0]) && is_digit(y[y.len() - 1]));
    assert(text[0] == x[0]);
    assert(text.last() == y[y.len() - 1]);
    assert(before + decimal(a) + seq![' '] + middle + decimal(b) + behind =~= before + text
        + behind);
    law_trimmed_between(before, text, behind);
    assert forall|i: int| 0 <= i < x.len() implies #[trigger] text[i] != ' ' by {
        assert(text[i] == x[i] && is_digit(x[i]));
    }
    assert(text[x.len() as int] == ' ');
    lemma_until(text, ' ', x.len() as int);
    assert(text.take(x.len() as int) =~= x);
    assert(text.skip(x.len() as int + 1) =~= middle + y);
    let none = Seq::<char>::empty();
    law_one_length(b, middle, none);
    assert(middle + y + none =~= middle + y);
}

/// Two lengths are read exactly where, without the white space around both, a length stands
/// before the first space and one behind it.
pub proof fn law_lengths_stand_around_a_space(text: Seq<char>, at: int)
    requires
        0 <= at <= trimmed(text).len(),
        forall|i: int| 0 <= i < at ==> #[trigger] trimmed(text)[i] != ' ',
        at < trimmed(text).len() ==> trimmed(text)[at] == ' ',
    ensures
        ({
            let t = trimmed(text);
            let a = one_len(t.take(at));
            let b = one_len(t.skip(at + 1));
            two_lens(text) == if at < t.len() && a is Some && b is Some {
                Some((a->0, b->0))
            } else {
                None
            }
        }),
{
    lemma_until(trimmed(text), ' ', at);
}

/// A text that is read as a length is, without the white space around it, digits, which one
/// plus sign may precede, and these spell the length.
pub proof fn law_lengths_are_numbers(text: Seq<char>)
    requires
        one_len(text) is Some,
    ensures
        ({
            let digits = if trimmed(text)[0] == '+' {
                trimmed(text).skip(1)
            } else {
                trimmed(text)
            };
            &&& digits.len() > 0
            &&& forall|i: int| 0 <= i < digits.len() ==> '0' <= #[trigger] digits[i] <= '9'
            &&& value(digits) == one_len(text)->0
            &&& one_len(text)->0 <= usize::MAX
        }),
{
    let digits = if trimmed(text)[0] == '+' {
        trimmed(text).skip(1)
    } else {
        trimmed(text)
    };
    assert forall|i: int| 0 <= i < digits.len() implies '0' <= #[trigger] digits[i] <= '9' by {
        assert(is_digit(digits[i]));
    }
}

} // verus!
