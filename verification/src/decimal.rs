//! Decimal numbers as text.

use vstd::prelude::*;

verus! {

/// The character of a digit.
pub open spec fn digit(d: nat) -> char {
    (48 + d) as char
}

/// `c` is one of the ten digits.
pub open spec fn is_digit(c: char) -> bool {
    '0' <= c <= '9'
}

/// A number in decimal, without leading zeros.
pub open spec fn decimal(n: nat) -> Seq<char>
    decreases n,
{
    if n < 10 {
        seq![digit(n)]
    } else {
        decimal(n / 10).push(digit(n % 10))
    }
}

/// The number that digits spell.
pub open spec fn value(digits: Seq<char>) -> nat
    decreases digits.len(),
{
    if digits.len() == 0 {
        0
    } else {
        10 * value(digits.drop_last()) + (digits.last() as nat - 48) as nat
    }
}

/// Text without the plus sign that it may begin with.
pub open spec fn unsigned(text: Seq<char>) -> Seq<char> {
    if text.len() > 0 && text[0] == '+' {
        text.skip(1)
    } else {
        text
    }
}

/// The text is a number: one digit or more, behind a plus sign or not.
pub open spec fn is_number(text: Seq<char>) -> bool {
    let digits = unsigned(text);
    digits.len() > 0 && forall|i: int| 0 <= i < digits.len() ==> is_digit(#[trigger] digits[i])
}

/// The number that the text spells, if it is one and is not above `max`.
pub open spec fn number(text: Seq<char>, max: nat) -> Option<nat> {
    if is_number(text) && value(unsigned(text)) <= max {
        Some(value(unsigned(text)))
    } else {
        None
    }
}

/// The characters of a text.
pub(crate) fn chars_of(text: &str) -> (chars: Vec<char>)
    ensures
        chars@ == text@,
{
    let mut chars: Vec<char> = Vec::new();
    for c in it: text.chars()
        invariant
            chars@ == it.seq().take(it.index() as int),
            it.seq() == text@,
    {
        chars.push(c);
    }
    chars
}

fn digit_text(d: u64) -> (text: &'static str)
    requires
        d < 10,
    ensures
        text@ == seq![digit(d as nat)],
{
    proof {
        reveal_strlit("0");
        reveal_strlit("1");
        reveal_strlit("2");
        reveal_strlit("3");
        reveal_strlit("4");
        reveal_strlit("5");
        reveal_strlit("6");
        reveal_strlit("7");
        reveal_strlit("8");
        reveal_strlit("9");
    }
    let text = match d {
        0 => "0",
        1 => "1",
        2 => "2",
        3 => "3",
        4 => "4",
        5 => "5",
        6 => "6",
        7 => "7",
        8 => "8",
        _ => "9",
    };
    assert(text@ =~= seq![digit(d as nat)]);
    text
}

/// Writes a number in decimal.
pub fn to_decimal(n: u64) -> (text: String)
    ensures
        text@ == decimal(n as nat),
    decreases n,
{
    let mut text = if n < 10 {
        String::new()
    } else {
        to_decimal(n / 10)
    };
    text.append(digit_text(n % 10));
    assert(text@ =~= decimal(n as nat));
    text
}

/// Reads a number in decimal: digits, which a plus sign may precede. `None` where
/// the text is anything else, or the number is above `max`.
pub fn parse_number(text: &[char], max: u64) -> (n: Option<u64>)
    ensures
        match n {
            Some(x) => number(text@, max as nat) == Some(x as nat),
            None => number(text@, max as nat) is None,
        },
{
    let start: usize = if text.len() > 0 && text[0] == '+' {
        1
    } else {
        0
    };
    let ghost digits = unsigned(text@);
    assert(digits =~= text@.skip(start as int));
    if start == text.len() {
        return None;
    }
    let mut n: u64 = 0;
    let mut i: usize = start;
    while i < text.len()
        invariant
            start <= i <= text@.len(),
            digits == text@.skip(start as int),
            digits == unsigned(text@),
            n <= max,
            n == value(digits.take(i - start)),
            forall|j: int| 0 <= j < i - start ==> is_digit(#[trigger] digits[j]),
        decreases text@.len() - i,
    {
        let c = text[i];
        if c < '0' || '9' < c {
            assert(!is_digit(digits[i - start]));
            return None;
        }
        let d: u64 = c as u64 - 48;
        proof {
            let so_far = digits.take(i - start + 1);
            assert(so_far.drop_last() =~= digits.take(i - start));
            assert(so_far.last() == c);
            if 10 * n + d > max {
                lemma_value_grows(digits, i - start + 1);
            }
        }
        if n > max / 10 || d > max - 10 * n {
            return None;
        }
        n = 10 * n + d;
        i += 1;
    }
    assert(digits.take(i - start) =~= digits);
    Some(n)
}

/// More digits never spell a smaller number.
proof fn lemma_value_grows(digits: Seq<char>, n: int)
    requires
        0 <= n <= digits.len(),
    ensures
        value(digits.take(n)) <= value(digits),
    decreases digits.len(),
{
    if n < digits.len() {
        lemma_value_grows(digits.drop_last(), n);
        assert(digits.drop_last().take(n) =~= digits.take(n));
    } else {
        assert(digits.take(n) =~= digits);
    }
}

/// A written number consists of digits and spells itself.
pub proof fn lemma_decimal(n: nat)
    ensures
        decimal(n).len() > 0,
        forall|i: int| 0 <= i < decimal(n).len() ==> is_digit(#[trigger] decimal(n)[i]),
        value(decimal(n)) == n,
    decreases n,
{
    if n < 10 {
        assert(decimal(n).drop_last() =~= Seq::empty());
        assert(value(Seq::empty()) == 0);
    } else {
        lemma_decimal(n / 10);
        assert(decimal(n).drop_last() =~= decimal(n / 10));
    }
}

/// Reading a written number gives that number.
pub proof fn law_decimal_round_trip(n: nat, max: nat)
    requires
        n <= max,
    ensures
        number(decimal(n), max) == Some(n),
{
    lemma_decimal(n);
    assert(is_digit(decimal(n)[0]));
}

/// A number is written in digits, without a needless zero in front, and each digit more
/// makes ten times the number and the digit.
pub proof fn law_decimal_is_plain(n: nat)
    ensures
        decimal(n).len() > 0,
        forall|i: int| 0 <= i < decimal(n).len() ==> '0' <= #[trigger] decimal(n)[i] <= '9',
        decimal(n).len() > 1 ==> decimal(n)[0] != '0',
        decimal(n).len() > 1 <==> n >= 10,
        value(decimal(n)) == n,
    decreases n,
{
    lemma_decimal(n);
    assert forall|i: int| 0 <= i < decimal(n).len() implies '0' <= #[trigger] decimal(n)[i]
        <= '9' by {
        assert(is_digit(decimal(n)[i]));
    }
    if n >= 10 {
        law_decimal_is_plain(n / 10);
        assert(decimal(n)[0] == decimal(n / 10)[0]);
        if decimal(n / 10).len() == 1 {
            assert(n / 10 < 10);
            assert(decimal(n / 10)[0] == digit(n / 10));
        }
    }
}

/// What digits spell: nothing spells zero, and each digit more makes ten times the number
/// and the digit.
pub proof fn law_value_is_positional(digits: Seq<char>, last: char)
    requires
        '0' <= last <= '9',
    ensures
        value(Seq::empty()) == 0,
        value(digits.push(last)) == 10 * value(digits) + (last as int - '0' as int),
{
    assert(digits.push(last).drop_last() =~= digits);
}

/// The text is of digits alone.
pub open spec fn all_digits(text: Seq<char>) -> bool {
    forall|i: int| 0 <= i < text.len() ==> '0' <= #[trigger] text[i] <= '9'
}

/// A text is read as a number exactly if it is digits, which one plus sign may precede, and
/// what they spell is not above `max`.
pub proof fn law_numbers_are_digits(text: Seq<char>, digits: Seq<char>, max: nat)
    requires
        text == digits && !(digits.len() > 0 && digits[0] == '+') || text == seq!['+'] + digits,
    ensures
        number(text, max) == if digits.len() > 0 && all_digits(digits) && value(digits) <= max {
            Some(value(digits))
        } else {
            None
        },
{
    assert(unsigned(text) =~= digits);
    if all_digits(digits) {
        assert forall|i: int| 0 <= i < digits.len() implies is_digit(#[trigger] digits[i]) by {}
    } else if is_number(text) {
        assert forall|i: int| 0 <= i < digits.len() implies '0' <= #[trigger] digits[i] <= '9' by {
            assert(is_digit(digits[i]));
        }
    }
}

} // verus!
