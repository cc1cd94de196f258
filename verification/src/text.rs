//! Cutting text into words.

use vstd::prelude::*;
use vstd::slice::slice_subrange;

verus! {

/// `c` is white space: it has the Unicode property `White_Space`.
pub open spec fn is_space(c: char) -> bool {
    ||| '\u{9}' <= c <= '\u{d}'
    ||| c == ' '
    ||| c == '\u{85}'
    ||| c == '\u{a0}'
    ||| c == '\u{1680}'
    ||| '\u{2000}' <= c <= '\u{200a}'
    ||| c == '\u{2028}'
    ||| c == '\u{2029}'
    ||| c == '\u{202f}'
    ||| c == '\u{205f}'
    ||| c == '\u{3000}'
}

/// Text without the white space that it begins with.
pub open spec fn trim_start(text: Seq<char>) -> Seq<char>
    decreases text.len(),
{
    if text.len() > 0 && is_space(text[0]) {
        trim_start(text.drop_first())
    } else {
        text
    }
}

/// Text without the white space that it ends in.
pub open spec fn trim_end(text: Seq<char>) -> Seq<char>
    decreases text.len(),
{
    if text.len() > 0 && is_space(text.last()) {
        trim_end(text.drop_last())
    } else {
        text
    }
}

/// Text without white space around it.
pub open spec fn trimmed(text: Seq<char>) -> Seq<char> {
    trim_end(trim_start(text))
}

/// The number of items before the first `x`; all of them where there is none.
pub open spec fn until<A>(items: Seq<A>, x: A) -> int
    decreases items.len(),
{
    if items.len() == 0 || items[0] == x {
        0
    } else {
        1 + until(items.drop_first(), x)
    }
}

/// What `until` counts.
pub proof fn lemma_until<A>(items: Seq<A>, x: A, n: int)
    requires
        0 <= n <= items.len(),
        forall|i: int| 0 <= i < n ==> #[trigger] items[i] != x,
        n < items.len() ==> items[n] == x,
    ensures
        until(items, x) == n,
    decreases n,
{
    if n > 0 {
        let rest = items.drop_first();
        assert(items[0] != x);
        assert forall|i: int| 0 <= i < n - 1 implies #[trigger] rest[i] != x by {
            assert(items[i + 1] != x);
        }
        lemma_until(rest, x, n - 1);
    }
}

/// Tells whether `c` is white space.
pub fn space(c: char) -> (r: bool)
    ensures
        r == is_space(c),
{
    ('\u{9}' <= c && c <= '\u{d}') || c == ' ' || c == '\u{85}' || c == '\u{a0}' || c == '\u{1680}'
        || ('\u{2000}' <= c && c <= '\u{200a}') || c == '\u{2028}' || c == '\u{2029}' || c
        == '\u{202f}' || c == '\u{205f}' || c == '\u{3000}'
}

/// Cuts off the white space around a text.
pub fn trim(text: &[char]) -> (r: &[char])
    ensures
        r@ == trimmed(text@),
{
    let mut start: usize = 0;
    assert(text@.skip(0) =~= text@);
    while start < text.len() && space(text[start])
        invariant
            0 <= start <= text@.len(),
            trim_start(text@.skip(start as int)) == trim_start(text@),
        decreases text@.len() - start,
    {
        assert(text@.skip(start as int).drop_first() =~= text@.skip(start + 1));
        start += 1;
    }
    let ghost rest = text@.skip(start as int);
    assert(trim_start(text@) == rest);
    let mut end: usize = text.len();
    assert(rest.take(end - start) =~= rest);
    while end > start && space(text[end - 1])
        invariant
            start <= end <= text@.len(),
            rest == text@.skip(start as int),
            trim_end(rest.take(end - start)) == trim_end(rest),
        decreases end,
    {
        assert(rest.take(end - start).drop_last() =~= rest.take(end - start - 1));
        end -= 1;
    }
    assert(text@.subrange(start as int, end as int) =~= rest.take(end - start));
    slice_subrange(text, start, end)
}

/// Counts the characters before the first `c`.
pub fn find(text: &[char], c: char) -> (n: usize)
    ensures
        n == until(text@, c),
        n <= text@.len(),
        n < text@.len() ==> text@[n as int] == c,
{
    let mut n: usize = 0;
    while n < text.len() && text[n] != c
        invariant
            n <= text@.len(),
            forall|i: int| 0 <= i < n ==> #[trigger] text@[i] != c,
        decreases text@.len() - n,
    {
        n += 1;
    }
    proof {
        lemma_until(text@, c, n as int);
    }
    n
}

/// Counts the bytes before the first `b`.
pub fn find_byte(bytes: &[u8], b: u8) -> (n: usize)
    ensures
        n == until(bytes@, b),
        n <= bytes@.len(),
        n < bytes@.len() ==> bytes@[n as int] == b,
{
    let mut n: usize = 0;
    while n < bytes.len() && bytes[n] != b
        invariant
            n <= bytes@.len(),
            forall|i: int| 0 <= i < n ==> #[trigger] bytes@[i] != b,
        decreases bytes@.len() - n,
    {
        n += 1;
    }
    proof {
        lemma_until(bytes@, b, n as int);
    }
    n
}

proof fn lemma_trim_start(before: Seq<char>, text: Seq<char>)
    requires
        forall|i: int| 0 <= i < before.len() ==> is_space(#[trigger] before[i]),
        text.len() > 0,
        !is_space(text[0]),
    ensures
        trim_start(before + text) == text,
    decreases before.len(),
{
    let all = before + text;
    if before.len() == 0 {
        assert(all =~= text);
    } else {
        assert(is_space(before[0]));
        assert(all[0] == before[0]);
        assert(all.drop_first() =~= before.drop_first() + text);
        assert forall|i: int| 0 <= i < before.len() - 1 implies is_space(
            #[trigger] before.drop_first()[i],
        ) by {
            assert(is_space(before[i + 1]));
        }
        lemma_trim_start(before.drop_first(), text);
    }
}

proof fn lemma_trim_end(text: Seq<char>, behind: Seq<char>)
    requires
        forall|i: int| 0 <= i < behind.len() ==> is_space(#[trigger] behind[i]),
        text.len() > 0,
        !is_space(text.last()),
    ensures
        trim_end(text + behind) == text,
    decreases behind.len(),
{
    let all = text + behind;
    if behind.len() == 0 {
        assert(all =~= text);
    } else {
        assert(is_space(behind[behind.len() - 1]));
        assert(all.last() == behind[behind.len() - 1]);
        assert(all.drop_last() =~= text + behind.drop_last());
        assert forall|i: int| 0 <= i < behind.len() - 1 implies is_space(
            #[trigger] behind.drop_last()[i],
        ) by {
            assert(is_space(behind[i]));
        }
        lemma_trim_end(text, behind.drop_last());
    }
}

/// White space around a text is cut off, however much there is, and nothing else.
pub proof fn law_trimmed_between(before: Seq<char>, text: Seq<char>, behind: Seq<char>)
    requires
        forall|i: int| 0 <= i < before.len() ==> is_space(#[trigger] before[i]),
        forall|i: int| 0 <= i < behind.len() ==> is_space(#[trigger] behind[i]),
        text.len() > 0,
        !is_space(text[0]),
        !is_space(text.last()),
    ensures
        trimmed(before + text + behind) == text,
{
    assert(before + text + behind =~= before + (text + behind));
    assert((text + behind)[0] == text[0]);
    lemma_trim_start(before, text + behind);
    lemma_trim_end(text, behind);
}

/// Nothing is left of a text that is white space alone, and of no other.
pub proof fn law_blank_text(text: Seq<char>)
    ensures
        trimmed(text).len() == 0 <==> forall|i: int|
            0 <= i < text.len() ==> is_space(#[trigger] text[i]),
    decreases text.len(),
{
    if text.len() > 0 {
        let rest = text.drop_first();
        if is_space(text[0]) {
            law_blank_text(rest);
            assert(trimmed(text) == trimmed(rest));
            if trimmed(text).len() == 0 {
                assert forall|i: int| 0 <= i < text.len() implies is_space(#[trigger] text[i]) by {
                    if i > 0 {
                        assert(is_space(rest[i - 1]));
                    }
                }
            } else {
                let i = choose|i: int| 0 <= i < rest.len() && !is_space(#[trigger] rest[i]);
                assert(!is_space(text[i + 1]));
            }
        } else {
            assert(!is_space(text[0]));
            lemma_trim_end_keeps(text);
        }
    }
}

proof fn lemma_trim_end_keeps(text: Seq<char>)
    requires
        text.len() > 0,
        !is_space(text[0]),
    ensures
        trim_end(text).len() > 0,
    decreases text.len(),
{
    if is_space(text.last()) {
        assert(text.len() > 1);
        assert(text.drop_last()[0] == text[0]);
        lemma_trim_end_keeps(text.drop_last());
    }
}

/// What is found is the first: no item before it is the one looked for, and it is, unless
/// there is none.
pub proof fn law_until_is_first<A>(items: Seq<A>, x: A)
    ensures
        0 <= until(items, x) <= items.len(),
        forall|i: int| 0 <= i < until(items, x) ==> #[trigger] items[i] != x,
        until(items, x) < items.len() ==> items[until(items, x)] == x,
    decreases items.len(),
{
    if items.len() > 0 && items[0] != x {
        let rest = items.drop_first();
        law_until_is_first(rest, x);
        assert forall|i: int| 0 <= i < until(items, x) implies #[trigger] items[i] != x by {
            if i > 0 {
                assert(rest[i - 1] == items[i]);
            }
        }
    }
}

/// White space is what Unicode counts as such: tab, line feed, vertical tab, form feed,
/// carriage return, space, next line, and the spaces and separators beyond ASCII; no letter,
/// digit or sign of ASCII is.
pub proof fn law_white_space(c: char)
    ensures
        is_space(c) <==> {
            let code = c as u32;
            ||| code == 9 || code == 10 || code == 11 || code == 12 || code == 13
            ||| code == 32 || code == 133 || code == 160 || code == 5760
            ||| 8192 <= code <= 8202
            ||| code == 8232 || code == 8233 || code == 8239 || code == 8287 || code == 12288
        },
        '!' <= c <= '~' ==> !is_space(c),
{
}

} // verus!
