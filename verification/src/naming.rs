//! Names of segment files.

use crate::decimal::{
    all_digits, chars_of, decimal, law_decimal_is_plain, lemma_decimal, number, parse_number, to_decimal, unsigned, value,
};
use vstd::prelude::*;
use vstd::slice::slice_subrange;

verus! {

/// `n` zeros.
pub open spec fn zeros(n: nat) -> Seq<char> {
    Seq::new(n, |i: int| '0')
}

/// What a segment's name ends in.
pub open spec fn suffix() -> Seq<char> {
    ".flog"@
}

/// The name of the segment `id`: the number, padded with zeros to six digits, and
/// the suffix.
pub open spec fn seg_name(id: u64) -> Seq<char> {
    let digits = decimal(id as nat);
    if digits.len() < 6 {
        zeros((6 - digits.len()) as nat) + digits + suffix()
    } else {
        digits + suffix()
    }
}

/// The number of the segment with this name, if it is the name of one: a number
/// with the suffix behind it.
pub open spec fn seg_id(name: Seq<char>) -> Option<u64> {
    let n = name.len() - suffix().len();
    if n > 0 && name.skip(n) == suffix() {
        match number(name.take(n), u64::MAX as nat) {
            Some(id) => Some(id as u64),
            None => None,
        }
    } else {
        None
    }
}

/// The name of the segment `id` in the store's directory.
pub fn seg_path(id: u64) -> (name: String)
    ensures
        name@ == seg_name(id),
{
    let digits = to_decimal(id);
    let mut len: usize = digits.as_str().unicode_len();
    let mut name = String::new();
    assert(name@ =~= zeros(0));
    while len < 6
        invariant
            digits@ == decimal(id as nat),
            digits@.len() <= len,
            digits@.len() >= 6 ==> len == digits@.len(),
            digits@.len() < 6 ==> len <= 6,
            name@ == zeros((len - digits@.len()) as nat),
        decreases 6 - len,
    {
        name.append("0");
        len += 1;
        proof {
            reveal_strlit("0");
            assert(name@ =~= zeros((len - digits@.len()) as nat));
        }
    }
    name.append(digits.as_str());
    name.append(".flog");
    assert(name@ =~= seg_name(id));
    name
}

/// The number of the segment that a file name stands for, if it stands for one.
pub fn segment_id(name: &str) -> (id: Option<u64>)
    ensures
        id == seg_id(name@),
{
    let chars = chars_of(name);
    proof {
        reveal_strlit(".flog");
    }
    if chars.len() <= 5 {
        return None;
    }
    let n = chars.len() - 5;
    if chars[n] != '.' || chars[n + 1] != 'f' || chars[n + 2] != 'l' || chars[n + 3] != 'o'
        || chars[n + 4] != 'g' {
        assert(name@.skip(n as int)[0] == chars@[n as int]);
        assert(name@.skip(n as int)[1] == chars@[n + 1]);
        assert(name@.skip(n as int)[2] == chars@[n + 2]);
        assert(name@.skip(n as int)[3] == chars@[n + 3]);
        assert(name@.skip(n as int)[4] == chars@[n + 4]);
        return None;
    }
    assert(name@.skip(n as int) =~= suffix());
    let stem = slice_subrange(chars.as_slice(), 0, n);
    assert(stem@ =~= name@.take(n as int));
    parse_number(stem, u64::MAX)
}

/// Zeros in front do not change a number.
proof fn lemma_leading_zeros(n: nat, digits: Seq<char>)
    ensures
        value(zeros(n) + digits) == value(digits),
    decreases digits.len(), n,
{
    let all = zeros(n) + digits;
    if digits.len() > 0 {
        assert(all.drop_last() =~= zeros(n) + digits.drop_last());
        lemma_leading_zeros(n, digits.drop_last());
    } else if n > 0 {
        assert(all.drop_last() =~= zeros((n - 1) as nat) + digits);
        lemma_leading_zeros((n - 1) as nat, digits);
    } else {
        assert(all =~= digits);
    }
}

/// Every segment is found again under its name.
pub proof fn law_name_round_trip(id: u64)
    ensures
        seg_id(seg_name(id)) == Some(id),
{
    reveal_strlit(".flog");
    let digits = decimal(id as nat);
    let pad = if digits.len() < 6 {
        (6 - digits.len()) as nat
    } else {
        0
    };
    let stem = zeros(pad) + digits;
    let name = seg_name(id);
    lemma_decimal(id as nat);
    lemma_leading_zeros(pad, digits);
    assert(name =~= stem + suffix());
    assert(name.take(stem.len() as int) =~= stem);
    assert(name.skip(stem.len() as int) =~= suffix());
    assert(crate::decimal::is_digit(stem[0]));
    assert(unsigned(stem) == stem);
}

/// Different segments have different names.
pub proof fn law_names_differ(a: u64, b: u64)
    requires
        seg_name(a) == seg_name(b),
    ensures
        a == b,
{
    law_name_round_trip(a);
    law_name_round_trip(b);
}

/// The name of a segment is its number in six digits, or in as many as it takes, and the
/// suffix behind it.
pub proof fn law_name_form(id: u64)
    ensures
        ({
            let name = seg_name(id);
            let n = name.len() - 5;
            let stem = name.take(n);
            &&& n >= 6
            &&& name.skip(n) == seq!['.', 'f', 'l', 'o', 'g']
            &&& all_digits(stem)
            &&& value(stem) == id
            &&& n > 6 ==> stem[0] != '0'
        }),
{
    reveal_strlit(".flog");
    let digits = decimal(id as nat);
    let pad = if digits.len() < 6 {
        (6 - digits.len()) as nat
    } else {
        0
    };
    let stem = zeros(pad) + digits;
    let name = seg_name(id);
    law_decimal_is_plain(id as nat);
    lemma_leading_zeros(pad, digits);
    assert(name =~= stem + suffix());
    assert(name.take(stem.len() as int) =~= stem);
    assert(name.skip(stem.len() as int) =~= seq!['.', 'f', 'l', 'o', 'g']);
    assert forall|i: int| 0 <= i < stem.len() implies '0' <= #[trigger] stem[i] <= '9' by {
        if i >= pad {
            assert(stem[i] == digits[i - pad]);
        }
    }
}

/// A file is taken for a segment exactly if its name is a number, in digits that one plus
/// sign may precede, with the suffix behind it, and for the one with that number.
pub proof fn law_segment_names(stem: Seq<char>, name: Seq<char>)
    ensures
        match number(stem, u64::MAX as nat) {
            Some(id) => seg_id(stem + seq!['.', 'f', 'l', 'o', 'g']) == Some(id as u64),
            None => seg_id(stem + seq!['.', 'f', 'l', 'o', 'g']) is None,
        },
        seg_id(name) is Some ==> name.len() > 5 && name.skip(name.len() - 5) == seq![
            '.',
            'f',
            'l',
            'o',
            'g',
        ],
{
    reveal_strlit(".flog");
    assert(suffix() =~= seq!['.', 'f', 'l', 'o', 'g']);
    let full = stem + suffix();
    assert(full.skip(stem.len() as int) =~= suffix());
    assert(full.take(stem.len() as int) =~= stem);
}

} // verus!
