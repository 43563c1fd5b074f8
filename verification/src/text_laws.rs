//! What holds of all text.

use vstd::prelude::*;

use crate::cpu::list_laws;
use crate::text;

verus! {

/// A number is written in digits that are the number, with no zero in front but
/// for zero itself, and a minus sign in front of one below zero.
pub proof fn law_a_number_is_its_digits(n: nat, m: int)
    ensures
        text::decimal(n).len() > 0,
        forall|i: int|
            0 <= i < text::decimal(n).len() ==> '0' <= #[trigger] text::decimal(n)[i] <= '9',
        text::value(text::decimal(n)) == n,
        text::decimal(n).len() > 1 ==> text::decimal(n)[0] != '0',
        m >= 0 ==> text::signed(m) == text::decimal(m as nat),
        m < 0 ==> text::signed(m) == "-"@ + text::decimal((-m) as nat),
{
    list_laws::lemma_decimal_reads_back(n);
    lemma_no_zero_in_front(n);
    reveal_strlit("-");
    assert("-"@ == seq!['-']);
}

proof fn lemma_no_zero_in_front(n: nat)
    ensures
        n > 0 ==> text::decimal(n)[0] != '0',
        text::decimal(n).len() > 1 ==> n > 0,
    decreases n,
{
    if n >= 10 {
        lemma_no_zero_in_front(n / 10);
        list_laws::lemma_decimal_reads_back(n / 10);
        assert(text::decimal(n)[0] == text::decimal(n / 10)[0]);
    } else if n > 0 {
        assert(text::decimal(n)[0] == text::digit(n));
    }
}

/// The digits of a number are worth what they stand for: each ten times what it
/// would be one place further on.
pub proof fn law_digits_are_worth_their_place(s: Seq<char>, c: char)
    requires
        '0' <= c <= '9',
    ensures
        text::value(Seq::empty()) == 0,
        text::value(s.push(c)) == 10 * text::value(s) + (c as nat - '0' as nat),
{
    assert(s.push(c).drop_last() == s);
}

/// Padding on the right leaves the text where it is and adds spaces up to the
/// width, padding on the left moves it to the end of what was added, and neither
/// ever cuts.
pub proof fn law_padding_only_adds(s: Seq<char>, fill: char, width: nat)
    ensures
        text::padded_right(s, width).len() == if s.len() < width {
            width
        } else {
            s.len()
        },
        text::padded_right(s, width).take(s.len() as int) == s,
        forall|i: int|
            s.len() <= i < text::padded_right(s, width).len() ==> (#[trigger] text::padded_right(
                s,
                width,
            )[i]) == ' ',
        text::padded_left(s, fill, width).len() == if s.len() < width {
            width
        } else {
            s.len()
        },
        text::padded_left(s, fill, width).skip(
            text::padded_left(s, fill, width).len() - s.len(),
        ) == s,
        forall|i: int|
            0 <= i < text::padded_left(s, fill, width).len() - s.len() ==> (
            #[trigger] text::padded_left(s, fill, width)[i]) == fill,
{
    assert(text::padded_right(s, width).take(s.len() as int) == s);
    assert(text::padded_left(s, fill, width).skip(
        text::padded_left(s, fill, width).len() - s.len(),
    ) == s);
}

/// Trimming takes off white space and nothing else, at both ends and as much of
/// it as there is.
pub proof fn law_trimming_takes_off_white_space(s: Seq<char>)
    ensures
        exists|i: int, j: int|
            0 <= i <= j <= s.len() && text::trimmed(s) == #[trigger] s.subrange(i, j) && (
            forall|k: int| 0 <= k < i ==> text::blank(#[trigger] s[k])) && (forall|k: int|
                j <= k < s.len() ==> text::blank(#[trigger] s[k])),
        text::trimmed(s).len() > 0 ==> !text::blank(text::trimmed(s)[0]) && !text::blank(
            text::trimmed(s).last(),
        ),
        exists|j: int|
            0 <= j <= s.len() && text::trimmed_end(s) == #[trigger] s.take(j) && (forall|k: int|
                j <= k < s.len() ==> text::blank(#[trigger] s[k])),
        text::trimmed_end(s).len() > 0 ==> !text::blank(text::trimmed_end(s).last()),
{
    let t = text::trimmed_start(s);
    let i = lemma_trimmed_start(s);
    let j = lemma_trimmed_end(t);
    assert(text::trimmed(s) == s.subrange(i, i + j));
    assert forall|k: int| i + j <= k < s.len() implies text::blank(#[trigger] s[k]) by {
        assert(t[k - i] == s[k]);
    }
    if text::trimmed(s).len() > 0 {
        assert(text::trimmed(s)[0] == t[0]);
    }
    let e = lemma_trimmed_end(s);
    assert(text::trimmed_end(s) == s.take(e));
}

proof fn lemma_trimmed_start(s: Seq<char>) -> (i: int)
    ensures
        0 <= i <= s.len(),
        text::trimmed_start(s) == s.skip(i),
        forall|k: int| 0 <= k < i ==> text::blank(#[trigger] s[k]),
        i < s.len() ==> !text::blank(s[i]),
    decreases s.len(),
{
    if s.len() > 0 && text::blank(s[0]) {
        let t = s.skip(1);
        let i = lemma_trimmed_start(t);
        assert(t.skip(i) == s.skip(i + 1));
        assert forall|k: int| 0 <= k < i + 1 implies text::blank(#[trigger] s[k]) by {
            if k > 0 {
                assert(t[k - 1] == s[k]);
            }
        }
        i + 1
    } else {
        assert(s.skip(0) == s);
        0
    }
}

proof fn lemma_trimmed_end(s: Seq<char>) -> (j: int)
    ensures
        0 <= j <= s.len(),
        text::trimmed_end(s) == s.take(j),
        forall|k: int| j <= k < s.len() ==> text::blank(#[trigger] s[k]),
        j > 0 ==> !text::blank(s[j - 1]),
    decreases s.len(),
{
    if s.len() > 0 && text::blank(s.last()) {
        let t = s.drop_last();
        let j = lemma_trimmed_end(t);
        assert(t.take(j) == s.take(j));
        assert forall|k: int| j <= k < s.len() implies text::blank(#[trigger] s[k]) by {
            if k < t.len() {
                assert(t[k] == s[k]);
            }
        }
        j
    } else {
        assert(s.take(s.len() as int) == s);
        s.len() as int
    }
}

/// Joining puts the separator between each two and nowhere else.
pub proof fn law_joining_separates_each_two(
    parts: Seq<Seq<char>>,
    last: Seq<char>,
    sep: Seq<char>,
)
    ensures
        text::joined(Seq::empty(), sep) == Seq::<char>::empty(),
        text::joined(seq![last], sep) == last,
        parts.len() > 0 ==> text::joined(parts.push(last), sep) == text::joined(parts, sep) + sep
            + last,
{
    assert(parts.push(last).drop_last() == parts);
}

/// One text sorts before another exactly when, after some start they have in
/// common, it ends first or goes on with a lower character.
pub proof fn law_text_sorts_by_its_first_difference(a: Seq<char>, b: Seq<char>)
    ensures
        text::before(a, b) <==> exists|k: int|
            0 <= k <= a.len() && k < b.len() && #[trigger] a.take(k) == b.take(k) && (k == a.len()
                || a[k] < b[k]),
    decreases a.len(),
{
    if a.len() > 0 && b.len() > 0 && a[0] == b[0] {
        let x = a.skip(1);
        let y = b.skip(1);
        law_text_sorts_by_its_first_difference(x, y);
        if text::before(a, b) {
            let k = choose|k: int|
                0 <= k <= x.len() && k < y.len() && #[trigger] x.take(k) == y.take(k) && (k
                    == x.len() || x[k] < y[k]);
            assert(a.take(k + 1) == seq![a[0]] + x.take(k));
            assert(b.take(k + 1) == seq![b[0]] + y.take(k));
            assert(a.take(k + 1) == b.take(k + 1));
        }
        if exists|k: int|
            0 <= k <= a.len() && k < b.len() && #[trigger] a.take(k) == b.take(k) && (k == a.len()
                || a[k] < b[k]) {
            let k = choose|k: int|
                0 <= k <= a.len() && k < b.len() && #[trigger] a.take(k) == b.take(k) && (k
                    == a.len() || a[k] < b[k]);
            assert(k > 0);
            assert(x.take(k - 1) == a.take(k).skip(1));
            assert(y.take(k - 1) == b.take(k).skip(1));
            assert(x.take(k - 1) == y.take(k - 1));
        }
    } else if text::before(a, b) {
        assert(a.take(0) == b.take(0));
    } else if exists|k: int|
        0 <= k <= a.len() && k < b.len() && #[trigger] a.take(k) == b.take(k) && (k == a.len()
            || a[k] < b[k]) {
        let k = choose|k: int|
            0 <= k <= a.len() && k < b.len() && #[trigger] a.take(k) == b.take(k) && (k == a.len()
                || a[k] < b[k]);
        if k > 0 {
            assert(a.take(k)[0] == b.take(k)[0]);
        }
    }
}

/// A number is read from one or more digits, after a plus sign or not, and from
/// nothing else, and only as far as there are numbers to hold it.
pub proof fn law_a_number_is_read_from_digits(s: Seq<char>)
    ensures
        s.len() > 0 && (forall|i: int| 0 <= i < s.len() ==> '0' <= #[trigger] s[i] <= '9')
            && text::value(s) <= usize::MAX ==> text::number(s) == Some(text::value(s) as usize)
            && text::number("+"@ + s) == text::number(s),
        (exists|i: int| 1 <= i < s.len() && !('0' <= #[trigger] s[i] <= '9')) ==> text::number(
            s,
        ) is None,
        s.len() > 0 && !('0' <= s[0] <= '9') && s[0] != '+' ==> text::number(s) is None,
        s.len() == 0 ==> text::number(s) is None && text::number("+"@) is None,
        s.len() > 0 && (forall|i: int| 0 <= i < s.len() ==> '0' <= #[trigger] s[i] <= '9')
            && text::value(s) > usize::MAX ==> text::number(s) is None,
{
    reveal_strlit("+");
    assert("+"@ == seq!['+']);
    let d = text::unsigned(s);
    let p = "+"@ + s;
    assert(text::unsigned(p) == s);
    assert("+"@.skip(1).len() == 0);
    if s.len() > 0 && '0' <= s[0] <= '9' {
        assert(d == s);
    }
    if exists|i: int| 1 <= i < s.len() && !('0' <= #[trigger] s[i] <= '9') {
        let i = choose|i: int| 1 <= i < s.len() && !('0' <= #[trigger] s[i] <= '9');
        if s[0] == '+' {
            assert(d[i - 1] == s[i]);
        } else {
            assert(d[i] == s[i]);
        }
    }
    if s.len() > 0 && !('0' <= s[0] <= '9') && s[0] != '+' {
        assert(d[0] == s[0]);
    }
}

} // verus!
