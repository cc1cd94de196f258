//! What the line protocol promises its clients.

use crate::decimal::{decimal, is_digit, law_decimal_round_trip, lemma_decimal};
use crate::record::MAX_KV;
use crate::server::{
    body_len, command, fetched, on_line, one_len, rest, stripped, two_lens, upper, value_reply, Body,
    Next, Req, MAX_LINE,
};
use crate::text::{is_space, lemma_until, trim_end, trim_start, trimmed, until};
use vstd::prelude::*;
use vstd::utf8::{
    encode_utf8, encode_utf8_decode_utf8, is_ascii_chars, is_ascii_chars_encode_utf8,
};

verus! {

/// The bytes of a text that is ASCII only.
pub open spec fn ascii(text: Seq<char>) -> Seq<u8> {
    text.map_values(|c: char| c as u8)
}

/// ASCII text is encoded byte for byte.
pub proof fn lemma_ascii(text: Seq<char>)
    requires
        is_ascii_chars(text),
    ensures
        encode_utf8(text) == ascii(text),
{
    is_ascii_chars_encode_utf8(text);
    assert(encode_utf8(text) =~= ascii(text));
}

/// The bytes do not end in a line break.
pub open spec fn unbroken(bytes: Seq<u8>) -> bool {
    bytes.len() > 0 ==> bytes.last() != 13 && bytes.last() != 10
}

/// Only line breaks: none, LF, CR LF, or more of them.
pub open spec fn breaks(end: Seq<u8>) -> bool {
    forall|i: int| 0 <= i < end.len() ==> #[trigger] end[i] == 13 || end[i] == 10
}

/// The line is not one that is refused for its length.
pub open spec fn short(line: Seq<u8>) -> bool {
    line.len() != MAX_LINE || line.last() == 10
}

/// The line breaks that a line ends in are cut off.
pub proof fn lemma_stripped(text: Seq<u8>, end: Seq<u8>)
    requires
        unbroken(text),
        breaks(end),
    ensures
        stripped(text + end) == text,
    decreases end.len(),
{
    if end.len() == 0 {
        assert(text + end =~= text);
    } else {
        let line = text + end;
        assert(line.last() == end[end.len() - 1]);
        assert(line.drop_last() =~= text + end.drop_last());
        assert(breaks(end.drop_last())) by {
            assert forall|i: int| 0 <= i < end.len() - 1 implies #[trigger] end.drop_last()[i] == 13
                || end.drop_last()[i] == 10 by {
                assert(end[i] == 13 || end[i] == 10);
            }
        }
        lemma_stripped(text, end.drop_last());
    }
}

/// How a line is cut into its command and the rest.
pub proof fn lemma_line(word: Seq<u8>, tail: Seq<u8>, end: Seq<u8>)
    requires
        forall|i: int| 0 <= i < word.len() ==> #[trigger] word[i] != 32,
        unbroken(tail),
        breaks(end),
    ensures
        ({
            let text = word + seq![32u8] + tail;
            &&& stripped(text + end) == text
            &&& command(text) == upper(word)
            &&& rest(text) == tail
        }),
{
    let text = word + seq![32u8] + tail;
    if tail.len() > 0 {
        assert(text.last() == tail.last());
    } else {
        assert(text.last() == 32);
    }
    lemma_stripped(text, end);
    assert forall|i: int| 0 <= i < word.len() implies #[trigger] text[i] != 32 by {
        assert(text[i] == word[i]);
    }
    lemma_until(text, 32u8, word.len() as int);
    assert(text.take(word.len() as int) =~= word);
    assert(text.skip(word.len() as int + 1) =~= tail);
}

/// The names of the commands.
pub proof fn lemma_commands()
    ensures
        encode_utf8("SET"@) == seq![83u8, 69u8, 84u8],
        encode_utf8("GET"@) == seq![71u8, 69u8, 84u8],
        encode_utf8("DEL"@) == seq![68u8, 69u8, 76u8],
        encode_utf8("BSET"@) == seq![66u8, 83u8, 69u8, 84u8],
        encode_utf8("BGET"@) == seq![66u8, 71u8, 69u8, 84u8],
        encode_utf8("BDEL"@) == seq![66u8, 68u8, 69u8, 76u8],
        encode_utf8("LEN"@) == seq![76u8, 69u8, 78u8],
        encode_utf8("COMPACT"@) == seq![67u8, 79u8, 77u8, 80u8, 65u8, 67u8, 84u8],
        encode_utf8("PING"@) == seq![80u8, 73u8, 78u8, 71u8],
        upper(encode_utf8("SET"@)) == encode_utf8("SET"@),
        upper(encode_utf8("GET"@)) == encode_utf8("GET"@),
        upper(encode_utf8("DEL"@)) == encode_utf8("DEL"@),
        upper(encode_utf8("BSET"@)) == encode_utf8("BSET"@),
        upper(encode_utf8("BGET"@)) == encode_utf8("BGET"@),
        upper(encode_utf8("BDEL"@)) == encode_utf8("BDEL"@),
        upper(encode_utf8("LEN"@)) == encode_utf8("LEN"@),
        upper(encode_utf8("COMPACT"@)) == encode_utf8("COMPACT"@),
        upper(encode_utf8("PING"@)) == encode_utf8("PING"@),
{
    reveal_strlit("LEN");
    reveal_strlit("COMPACT");
    reveal_strlit("PING");
    lemma_ascii("LEN"@);
    lemma_ascii("COMPACT"@);
    lemma_ascii("PING"@);
    assert(ascii("LEN"@) =~= seq![76u8, 69u8, 78u8]);
    assert(ascii("COMPACT"@) =~= seq![67u8, 79u8, 77u8, 80u8, 65u8, 67u8, 84u8]);
    assert(ascii("PING"@) =~= seq![80u8, 73u8, 78u8, 71u8]);
    assert(upper(encode_utf8("LEN"@)) =~= encode_utf8("LEN"@));
    assert(upper(encode_utf8("COMPACT"@)) =~= encode_utf8("COMPACT"@));
    assert(upper(encode_utf8("PING"@)) =~= encode_utf8("PING"@));
    reveal_strlit("SET");
    reveal_strlit("GET");
    reveal_strlit("DEL");
    reveal_strlit("BSET");
    reveal_strlit("BGET");
    reveal_strlit("BDEL");
    lemma_ascii("SET"@);
    lemma_ascii("GET"@);
    lemma_ascii("DEL"@);
    lemma_ascii("BSET"@);
    lemma_ascii("BGET"@);
    lemma_ascii("BDEL"@);
    assert(ascii("SET"@) =~= seq![83u8, 69u8, 84u8]);
    assert(ascii("GET"@) =~= seq![71u8, 69u8, 84u8]);
    assert(ascii("DEL"@) =~= seq![68u8, 69u8, 76u8]);
    assert(ascii("BSET"@) =~= seq![66u8, 83u8, 69u8, 84u8]);
    assert(ascii("BGET"@) =~= seq![66u8, 71u8, 69u8, 84u8]);
    assert(ascii("BDEL"@) =~= seq![66u8, 68u8, 69u8, 76u8]);
    assert(upper(encode_utf8("SET"@)) =~= encode_utf8("SET"@));
    assert(upper(encode_utf8("GET"@)) =~= encode_utf8("GET"@));
    assert(upper(encode_utf8("DEL"@)) =~= encode_utf8("DEL"@));
    assert(upper(encode_utf8("BSET"@)) =~= encode_utf8("BSET"@));
    assert(upper(encode_utf8("BGET"@)) =~= encode_utf8("BGET"@));
    assert(upper(encode_utf8("BDEL"@)) =~= encode_utf8("BDEL"@));
}

/// `SET` stores the rest of the line, spaces and all, under a key without spaces. The line
/// may end in LF, in CR LF, or with the input.
pub proof fn law_set_line(key: Seq<u8>, val: Seq<u8>, end: Seq<u8>)
    requires
        forall|i: int| 0 <= i < key.len() ==> #[trigger] key[i] != 32,
        unbroken(val),
        breaks(end),
        short(encode_utf8("SET"@) + seq![32u8] + (key + seq![32u8] + val) + end),
    ensures
        on_line(encode_utf8("SET"@) + seq![32u8] + (key + seq![32u8] + val) + end) == (Next::Call {
            request: Req::Put { key, val },
        }),
{
    let tail = key + seq![32u8] + val;
    lemma_commands();
    if val.len() > 0 {
        assert(tail.last() == val.last());
    } else {
        assert(tail.last() == 32);
    }
    lemma_line(encode_utf8("SET"@), tail, end);
    assert forall|i: int| 0 <= i < key.len() implies #[trigger] tail[i] != 32 by {
        assert(tail[i] == key[i]);
    }
    lemma_until(tail, 32u8, key.len() as int);
    assert(tail.take(key.len() as int) =~= key);
    assert(tail.skip(key.len() as int + 1) =~= val);
}

/// `GET` and `DEL` take the rest of the line for the key. The line may end in LF, in CR LF,
/// or with the input.
pub proof fn law_key_line(key: Seq<u8>, end: Seq<u8>)
    requires
        unbroken(key),
        breaks(end),
        short(encode_utf8("GET"@) + seq![32u8] + key + end),
    ensures
        on_line(encode_utf8("GET"@) + seq![32u8] + key + end) == (Next::Call {
            request: Req::Get { key },
        }),
        on_line(encode_utf8("DEL"@) + seq![32u8] + key + end) == (Next::Call {
            request: Req::Delete { key },
        }),
{
    lemma_commands();
    assert(encode_utf8("GET"@)[0] != encode_utf8("SET"@)[0]);
    assert(encode_utf8("DEL"@)[0] != encode_utf8("SET"@)[0]);
    assert(encode_utf8("DEL"@)[0] != encode_utf8("GET"@)[0]);
    lemma_line(encode_utf8("GET"@), key, end);
    lemma_line(encode_utf8("DEL"@), key, end);
    let get = encode_utf8("GET"@) + seq![32u8] + key + end;
    let del = encode_utf8("DEL"@) + seq![32u8] + key + end;
    assert(get.len() == del.len());
    assert(get.last() == del.last());
}

/// A number is as it is without the white space around it.
proof fn lemma_trimmed(text: Seq<char>)
    requires
        text.len() > 0,
        !is_space(text[0]),
        !is_space(text.last()),
    ensures
        trimmed(text) == text,
{
    assert(trim_start(text) == text);
    assert(trim_end(text) == text);
}

/// Lengths in decimal are read back.
pub proof fn lemma_len(n: nat)
    requires
        n <= usize::MAX,
    ensures
        decimal(n).len() > 0,
        forall|i: int| 0 <= i < decimal(n).len() ==> is_digit(#[trigger] decimal(n)[i]),
        trimmed(decimal(n)) == decimal(n),
        one_len(decimal(n)) == Some(n),
        is_ascii_chars(decimal(n)),
{
    lemma_decimal(n);
    let text = decimal(n);
    assert(is_digit(text[0]) && is_digit(text[text.len() - 1]));
    lemma_trimmed(text);
    law_decimal_round_trip(n, usize::MAX as nat);
    assert forall|i: int| 0 <= i < text.len() implies '\0' <= #[trigger] text[i] <= '\u{7f}' by {
        assert(is_digit(text[i]));
    }
}

/// Lengths in decimal are text on one line.
pub proof fn lemma_digits(a: nat, b: nat)
    requires
        a <= usize::MAX,
        b <= usize::MAX,
    ensures
        forall|i: int|
            0 <= i < encode_utf8(decimal(a)).len() ==> #[trigger] encode_utf8(decimal(a))[i] != 10,
        forall|i: int|
            0 <= i < encode_utf8(decimal(a) + seq![' '] + decimal(b)).len() ==> #[trigger]
            encode_utf8(decimal(a) + seq![' '] + decimal(b))[i] != 10,
{
    let one = decimal(a);
    let two = decimal(b);
    let text = one + seq![' '] + two;
    lemma_len(a);
    lemma_len(b);
    lemma_ascii(one);
    assert forall|i: int| 0 <= i < text.len() implies '\0' <= #[trigger] text[i] <= '\u{7f}'
        && text[i] != '\n' by {
        if i < one.len() {
            assert(text[i] == one[i] && is_digit(one[i]));
        } else if i > one.len() {
            assert(text[i] == two[i - one.len() - 1] && is_digit(two[i - one.len() - 1]));
        }
    }
    lemma_ascii(text);
    assert forall|i: int| 0 <= i < ascii(one).len() implies #[trigger] ascii(one)[i] != 10 by {
        assert(is_digit(one[i]));
    }
    assert forall|i: int| 0 <= i < ascii(text).len() implies #[trigger] ascii(text)[i] != 10 by {
        assert(text[i] != '\n');
    }
}

/// The commands that are a word alone.
pub proof fn lemma_plain_line(end: Seq<u8>)
    requires
        breaks(end),
        end.len() <= 2,
    ensures
        on_line(encode_utf8("LEN"@) + end) == (Next::Call { request: Req::Len }),
        on_line(encode_utf8("COMPACT"@) + end) == (Next::Call { request: Req::Compact }),
        on_line(encode_utf8("PING"@) + end) == (Next::Send { reply: encode_utf8("PONG\n"@) }),
{
    lemma_commands();
    lemma_word(encode_utf8("LEN"@), end);
    lemma_word(encode_utf8("COMPACT"@), end);
    lemma_word(encode_utf8("PING"@), end);
    assert(encode_utf8("LEN"@)[0] != encode_utf8("SET"@)[0]);
    assert(encode_utf8("LEN"@)[0] != encode_utf8("GET"@)[0]);
    assert(encode_utf8("LEN"@)[0] != encode_utf8("DEL"@)[0]);
    assert(encode_utf8("PING"@)[0] != encode_utf8("BSET"@)[0]);
    assert(encode_utf8("PING"@)[0] != encode_utf8("BGET"@)[0]);
    assert(encode_utf8("PING"@)[0] != encode_utf8("BDEL"@)[0]);
}

/// How a line that is a word alone is cut.
pub proof fn lemma_word(word: Seq<u8>, end: Seq<u8>)
    requires
        word.len() > 0,
        forall|i: int| 0 <= i < word.len() ==> #[trigger] word[i] != 32,
        unbroken(word),
        breaks(end),
    ensures
        stripped(word + end) == word,
        command(word) == upper(word),
        rest(word) == Seq::<u8>::empty(),
{
    lemma_stripped(word, end);
    lemma_until(word, 32u8, word.len() as int);
    assert(word.take(word.len() as int) =~= word);
}

/// The line that announces a key and a value of these lengths.
pub open spec fn bset_line(klen: nat, vlen: nat, end: Seq<u8>) -> Seq<u8> {
    encode_utf8("BSET"@) + seq![32u8] + encode_utf8(decimal(klen) + seq![' '] + decimal(vlen)) + end
}

/// `BSET` stores any bytes under any bytes: what follows the line is cut by the two
/// lengths alone.
pub proof fn law_binary_set(key: Seq<u8>, val: Seq<u8>, end: Seq<u8>, more: Seq<u8>)
    requires
        key.len() <= MAX_KV,
        val.len() <= MAX_KV,
        breaks(end),
        short(bset_line(key.len(), val.len(), end)),
    ensures
        ({
            let body = Body::Put { klen: key.len() as usize, vlen: val.len() as usize };
            &&& on_line(bset_line(key.len(), val.len(), end)) == (Next::Fetch { body })
            &&& body_len(body) == key.len() + val.len()
            &&& fetched(body, key + val + more) == (Req::Put { key, val })
        }),
{
    let a = decimal(key.len());
    let b = decimal(val.len());
    let text = a + seq![' '] + b;
    let tail = encode_utf8(text);
    lemma_commands();
    lemma_len(key.len());
    lemma_len(val.len());
    assert forall|i: int| 0 <= i < text.len() implies '\0' <= #[trigger] text[i] <= '\u{7f}' by {
        if i < a.len() {
            assert(text[i] == a[i]);
        } else if i > a.len() {
            assert(text[i] == b[i - a.len() - 1]);
        }
    }
    lemma_ascii(text);
    assert(text[0] == a[0]);
    assert(text.last() == b[b.len() - 1]);
    assert(tail.last() == text.last() as u8);
    assert(encode_utf8("BSET"@).len() == 4 && encode_utf8("SET"@).len() == 3);
    lemma_line(encode_utf8("BSET"@), tail, end);
    encode_utf8_decode_utf8(text);
    lemma_trimmed(text);
    assert forall|i: int| 0 <= i < a.len() implies #[trigger] text[i] != ' ' by {
        assert(text[i] == a[i]);
    }
    lemma_until(text, ' ', a.len() as int);
    assert(text.take(a.len() as int) =~= a);
    assert(text.skip(a.len() as int + 1) =~= b);
    assert(two_lens(text) == Some((key.len(), val.len())));
    let bytes = key + val + more;
    assert(bytes.take(key.len() as int) =~= key);
    assert(bytes.subrange(key.len() as int, (key.len() + val.len()) as int) =~= val);
}

/// `BGET` and `BDEL` take any bytes for the key.
pub proof fn law_binary_key(key: Seq<u8>, end: Seq<u8>, more: Seq<u8>)
    requires
        key.len() <= MAX_KV,
        breaks(end),
        short(encode_utf8("BGET"@) + (seq![32u8] + encode_utf8(decimal(key.len())) + end)),
    ensures
        ({
            let tail = seq![32u8] + encode_utf8(decimal(key.len())) + end;
            let klen = key.len() as usize;
            &&& on_line(encode_utf8("BGET"@) + tail) == (Next::Fetch { body: Body::Get { klen } })
            &&& on_line(encode_utf8("BDEL"@) + tail) == (Next::Fetch {
                body: Body::Delete { klen },
            })
            &&& fetched(Body::Get { klen }, key + more) == (Req::Get { key })
            &&& fetched(Body::Delete { klen }, key + more) == (Req::Delete { key })
        }),
{
    let text = decimal(key.len());
    let tail = encode_utf8(text);
    lemma_commands();
    lemma_len(key.len());
    lemma_ascii(text);
    assert(is_digit(text[text.len() - 1]));
    assert(tail.last() == text.last() as u8);
    encode_utf8_decode_utf8(text);
    lemma_line(encode_utf8("BGET"@), tail, end);
    lemma_line(encode_utf8("BDEL"@), tail, end);
    assert(encode_utf8("BGET"@) + (seq![32u8] + tail + end) =~= encode_utf8("BGET"@)
        + seq![32u8] + tail + end);
    assert(encode_utf8("BDEL"@) + (seq![32u8] + tail + end) =~= encode_utf8("BDEL"@)
        + seq![32u8] + tail + end);
    let get = encode_utf8("BGET"@) + seq![32u8] + tail + end;
    let del = encode_utf8("BDEL"@) + seq![32u8] + tail + end;
    assert(get.len() == del.len());
    assert(get.last() == del.last());
    assert(encode_utf8("BGET"@)[1] != encode_utf8("BSET"@)[1]);
    assert(encode_utf8("BDEL"@)[1] != encode_utf8("BSET"@)[1]);
    assert(encode_utf8("BDEL"@)[1] != encode_utf8("BGET"@)[1]);
    assert((key + more).take(key.len() as int) =~= key);
}

/// The line that begins the reply with a value.
pub proof fn lemma_value_head(val: Seq<u8>, more: Seq<u8>)
    requires
        val.len() <= usize::MAX,
    ensures
        ({
            let text = "$"@ + decimal(val.len());
            let sent = value_reply(Some(val)) + more;
            &&& sent == ascii(text) + seq![10u8] + val + seq![10u8] + more
            &&& until(sent, 10u8) == text.len()
            &&& sent[0] == 36
        }),
{
    let digits = decimal(val.len());
    let text = "$"@ + digits;
    let line = text + "\n"@;
    reveal_strlit("$");
    reveal_strlit("\n");
    lemma_len(val.len());
    assert forall|i: int| 0 <= i < line.len() implies '\0' <= #[trigger] line[i] <= '\u{7f}' by {
        if 1 <= i <= digits.len() {
            assert(line[i] == digits[i - 1]);
        }
    }
    lemma_ascii(line);
    lemma_ascii("\n"@);
    assert(ascii(line) =~= ascii(text) + seq![10u8]);
    assert(ascii("\n"@) =~= seq![10u8]);
    let sent = value_reply(Some(val)) + more;
    assert(sent =~= ascii(text) + seq![10u8] + val + seq![10u8] + more);
    assert forall|i: int| 0 <= i < text.len() implies #[trigger] sent[i] != 10 by {
        assert(sent[i] == text[i] as u8);
        if i > 0 {
            assert(text[i] == digits[i - 1]);
        }
    }
    lemma_until(sent, 10u8, text.len() as int);
}

/// A client finds the value in the reply, whatever bytes it has, and finds where the
/// reply ends: no two values give the same bytes, whatever is sent behind them.
pub proof fn law_value_reply_is_unambiguous(
    a: Option<Seq<u8>>,
    b: Option<Seq<u8>>,
    x: Seq<u8>,
    y: Seq<u8>,
)
    requires
        a is Some ==> a->0.len() <= usize::MAX,
        b is Some ==> b->0.len() <= usize::MAX,
        value_reply(a) + x == value_reply(b) + y,
    ensures
        a == b,
        x == y,
{
    reveal_strlit("nil\n");
    lemma_ascii("nil\n"@);
    if a is Some {
        lemma_value_head(a->0, x);
    }
    if b is Some {
        lemma_value_head(b->0, y);
    }
    let sent = value_reply(a) + x;
    if a is Some && b is Some {
        let n = decimal(a->0.len());
        let m = decimal(b->0.len());
        reveal_strlit("$");
        lemma_len(a->0.len());
        lemma_len(b->0.len());
        assert(n.len() == m.len());
        assert forall|i: int| 0 <= i < n.len() implies n[i] == m[i] by {
            assert(sent[i + 1] == ("$"@ + n)[i + 1] as u8);
            assert(sent[i + 1] == ("$"@ + m)[i + 1] as u8);
            assert(is_digit(n[i]) && is_digit(m[i]));
        }
        assert(n =~= m);
        assert(a->0.len() == b->0.len());
        let start = n.len() + 2;
        let end = start + a->0.len();
        assert(a->0 =~= sent.subrange(start as int, end as int));
        assert(b->0 =~= sent.subrange(start as int, end as int));
        assert(x =~= sent.skip(end as int + 1));
        assert(y =~= sent.skip(end as int + 1));
    } else if a is None && b is None {
        assert(x =~= sent.skip(4));
        assert(y =~= sent.skip(4));
    } else {
        assert(ascii("nil\n"@)[0] == 110);
        assert(sent[0] == 36);
    }
}

} // verus!
