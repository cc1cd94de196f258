//! What a client reads back from a reply.

use crate::conversation::{ascii, law_value_reply_is_unambiguous, lemma_ascii, lemma_value_head};
use crate::decimal::{
    decimal, is_digit, law_decimal_is_plain, law_decimal_round_trip, lemma_decimal, number,
};
use crate::server::{reply_to, suits, value_reply, Answer, Req};
use crate::text::until;
use vstd::prelude::*;
use vstd::utf8::is_ascii_chars;

verus! {

/// Bytes as characters, one for one.
pub open spec fn chars(bytes: Seq<u8>) -> Seq<char> {
    bytes.map_values(|b: u8| b as char)
}

/// The value that an answer carries.
pub open spec fn carried(val: Option<Vec<u8>>) -> Option<Seq<u8>> {
    match val {
        Some(val) => Some(val@),
        None => None,
    }
}

/// Digits are ASCII.
proof fn lemma_digits_are_ascii(n: nat)
    ensures
        is_ascii_chars(decimal(n)),
        chars(ascii(decimal(n))) == decimal(n),
{
    lemma_decimal(n);
    assert forall|i: int| 0 <= i < decimal(n).len() implies '\0' <= #[trigger] decimal(n)[i]
        <= '\u{7f}' by {
        assert(is_digit(decimal(n)[i]));
    }
    assert forall|i: int| 0 <= i < decimal(n).len() implies #[trigger] chars(ascii(decimal(n)))[i]
        == decimal(n)[i] by {
        assert(is_digit(decimal(n)[i]));
    }
    assert(chars(ascii(decimal(n))) =~= decimal(n));
}

/// A client reads a count back from its reply, whatever it is: the reply is digits and a
/// line feed, the digits spell the count, and no needless zero comes first.
pub proof fn law_count_is_read_back(n: usize)
    ensures
        ({
            let sent = reply_to(Answer::Count { n });
            let text = chars(sent.drop_last());
            &&& sent.len() >= 2
            &&& sent.last() == 10
            &&& forall|i: int| 0 <= i < text.len() ==> '0' <= #[trigger] text[i] <= '9'
            &&& text.len() > 1 ==> text[0] != '0'
            &&& number(text, usize::MAX as nat) == Some(n as nat)
        }),
{
    let digits = decimal(n as nat);
    let line = digits + "\n"@;
    let sent = reply_to(Answer::Count { n });
    reveal_strlit("\n");
    lemma_digits_are_ascii(n as nat);
    lemma_decimal(n as nat);
    law_decimal_is_plain(n as nat);
    law_decimal_round_trip(n as nat, usize::MAX as nat);
    assert forall|i: int| 0 <= i < line.len() implies '\0' <= #[trigger] line[i] <= '\u{7f}' by {
        if i < digits.len() {
            assert(line[i] == digits[i]);
        }
    }
    lemma_ascii(line);
    assert(sent =~= ascii(line));
    assert(sent.drop_last() =~= ascii(digits));
    assert forall|i: int| 0 <= i < digits.len() implies '0' <= #[trigger] digits[i] <= '9' by {
        assert(is_digit(digits[i]));
    }
}

/// A client reads a value back from its reply, whatever bytes it has: the first line is a
/// dollar sign and the length of the value, so many bytes follow as they are, and a line
/// feed ends the reply.
pub proof fn law_value_is_read_back(val: Vec<u8>)
    requires
        val@.len() <= usize::MAX,
    ensures
        ({
            let sent = reply_to(Answer::Value { val: Some(val) });
            let at = until(sent, 10u8);
            let end = at + 1 + val@.len();
            &&& 1 < at < sent.len()
            &&& sent[0] == 36
            &&& number(chars(sent.subrange(1, at)), usize::MAX as nat) == Some(val@.len())
            &&& sent.len() == end + 1
            &&& sent.subrange(at + 1, end) == val@
            &&& sent[end] == 10
        }),
{
    let digits = decimal(val@.len());
    let text = "$"@ + digits;
    let sent = reply_to(Answer::Value { val: Some(val) });
    let at = until(sent, 10u8);
    reveal_strlit("$");
    lemma_value_head(val@, Seq::empty());
    assert(value_reply(Some(val@)) + Seq::empty() =~= sent);
    lemma_digits_are_ascii(val@.len());
    lemma_decimal(val@.len());
    law_decimal_round_trip(val@.len(), usize::MAX as nat);
    assert(sent.subrange(1, at) =~= ascii(digits));
    assert(sent.subrange(at + 1, at + 1 + val@.len()) =~= val@);
}

/// The replies that carry no number and no value.
pub proof fn law_short_replies()
    ensures
        reply_to(Answer::Done) == seq![79u8, 75u8, 10u8],
        reply_to(Answer::Hit { hit: true }) == seq![49u8, 10u8],
        reply_to(Answer::Hit { hit: false }) == seq![48u8, 10u8],
        reply_to(Answer::Value { val: None }) == seq![110u8, 105u8, 108u8, 10u8],
{
    reveal_strlit("OK\n");
    reveal_strlit("1\n");
    reveal_strlit("0\n");
    reveal_strlit("nil\n");
    lemma_ascii("OK\n"@);
    lemma_ascii("1\n"@);
    lemma_ascii("0\n"@);
    lemma_ascii("nil\n"@);
    assert(ascii("OK\n"@) =~= seq![79u8, 75u8, 10u8]);
    assert(ascii("1\n"@) =~= seq![49u8, 10u8]);
    assert(ascii("0\n"@) =~= seq![48u8, 10u8]);
    assert(ascii("nil\n"@) =~= seq![110u8, 105u8, 108u8, 10u8]);
}

/// Two answers to the same request have the same reply only if they are the same answer.
pub proof fn law_replies_differ(request: Req, a: Answer, b: Answer)
    requires
        suits(request, a),
        suits(request, b),
        reply_to(a) == reply_to(b),
        a matches Answer::Value { val: Some(val) } ==> val@.len() <= usize::MAX,
        b matches Answer::Value { val: Some(val) } ==> val@.len() <= usize::MAX,
    ensures
        match (a, b) {
            (Answer::Done, Answer::Done) => true,
            (Answer::Value { val: x }, Answer::Value { val: y }) => carried(x) == carried(y),
            (Answer::Hit { hit: x }, Answer::Hit { hit: y }) => x == y,
            (Answer::Count { n: x }, Answer::Count { n: y }) => x == y,
            _ => false,
        },
{
    match (a, b) {
        (Answer::Value { val: x }, Answer::Value { val: y }) => {
            law_value_reply_is_unambiguous(carried(x), carried(y), Seq::empty(), Seq::empty());
        },
        (Answer::Hit { hit: x }, Answer::Hit { hit: y }) => {
            law_short_replies();
            assert(seq![49u8, 10u8][0] != seq![48u8, 10u8][0]);
        },
        (Answer::Count { n: x }, Answer::Count { n: y }) => {
            law_count_is_read_back(x);
            law_count_is_read_back(y);
        },
        _ => {},
    }
}

/// Every answer that the store can give to a request is sent, and no other: setting and
/// compacting are done, reading gives a value or none, deleting tells whether the key was
/// there, and counting gives a number.
pub proof fn law_answers_suit_their_requests(
    key: Seq<u8>,
    val: Seq<u8>,
    found: Option<Vec<u8>>,
    hit: bool,
    n: usize,
    answer: Answer,
)
    ensures
        suits(Req::Put { key, val }, answer) <==> answer is Done,
        suits(Req::Compact, answer) <==> answer is Done,
        suits(Req::Get { key }, Answer::Value { val: found }),
        suits(Req::Get { key }, answer) ==> answer is Value,
        suits(Req::Delete { key }, Answer::Hit { hit }),
        suits(Req::Delete { key }, answer) ==> answer is Hit,
        suits(Req::Len, Answer::Count { n }),
        suits(Req::Len, answer) ==> answer is Count,
{
}

} // verus!
