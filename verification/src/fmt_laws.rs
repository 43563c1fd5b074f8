//! What holds of every time and size as it is written.

use vstd::arithmetic::power2::pow2;
use vstd::prelude::*;

use crate::cpu::list_laws;
use crate::double;
use crate::fmt;
use crate::text;

verus! {

/// Whether `t` is the whole number nearest to `num / den`, and the even one of
/// two as near.
pub open spec fn rounds(t: nat, num: nat, den: nat) -> bool {
    &&& 2 * t * den <= 2 * num + den
    &&& 2 * num <= 2 * t * den + den
    &&& 2 * t * den == 2 * num + den || 2 * num == 2 * t * den + den ==> t % 2 == 0
}

/// Whether `s` is `t` with a point in front of its last `places` digits.
pub open spec fn points(s: Seq<char>, t: nat, places: nat) -> bool {
    let per: nat = if places == 0 {
        1
    } else if places == 1 {
        10
    } else {
        100
    };
    let k = s.len() - places;
    if places == 0 {
        s == text::decimal(t)
    } else {
        &&& k > 1
        &&& s[k - 1] == '.'
        &&& s.take(k - 1) == text::decimal(t / per)
        &&& forall|i: int| k <= i < s.len() ==> '0' <= #[trigger] s[i] <= '9'
        &&& text::value(s.skip(k)) == t % per
    }
}

proof fn lemma_nearest(num: nat, den: nat)
    requires
        den > 0,
    ensures
        rounds(fmt::nearest(num, den), num, den),
{
    let q = num / den;
    let r = num % den;
    let t = fmt::nearest(num, den);
    vstd::arithmetic::div_mod::lemma_fundamental_div_mod(num as int, den as int);
    assert(num == q * den + r) by (nonlinear_arith)
        requires
            num == den * q + r,
    ;
    assert(2 * q * den == 2 * (q * den)) by (nonlinear_arith);
    assert(2 * (q + 1) * den == 2 * (q * den) + 2 * den) by (nonlinear_arith);
    assert(t == q || t == q + 1);
    if t == q + 1 {
        assert(2 * t * den == 2 * (q * den) + 2 * den);
        if 2 * t * den == 2 * num + den {
            assert(2 * r == den);
            assert(q % 2 == 1);
        }
    }
}

proof fn lemma_short(n: nat)
    ensures
        n < 10 ==> text::decimal(n).len() == 1,
        10 <= n < 100 ==> text::decimal(n).len() == 2,
{
    if 10 <= n < 100 {
        assert(text::decimal(n / 10).len() == 1);
    }
}

proof fn lemma_zero_in_front(s: Seq<char>)
    ensures
        text::value(seq!['0'] + s) == text::value(s),
    decreases s.len(),
{
    let z = seq!['0'] + s;
    if s.len() == 0 {
        assert(z.drop_last() == Seq::<char>::empty());
        assert(text::value(z.drop_last()) == 0);
    } else {
        lemma_zero_in_front(s.drop_last());
        assert(z.drop_last() == seq!['0'] + s.drop_last());
    }
}

/// A fraction is written as the nearest number with that many places, no other
/// is nearer, and it has just that many digits behind its point.
pub proof fn law_a_fraction_is_written_to_its_places(num: nat, den: nat, places: nat)
    requires
        den > 0,
        places <= 2,
    ensures
        exists|t: nat| #[trigger]
            points(fmt::fixed(num, den, places), t, places) && rounds(
                t,
                num * if places == 0 {
                    1nat
                } else if places == 1 {
                    10
                } else {
                    100
                },
                den,
            ),
{
    reveal_with_fuel(fmt::units, 3);
    let per: nat = if places == 0 {
        1
    } else if places == 1 {
        10
    } else {
        100
    };
    assert(fmt::units(places) == per);
    let t = fmt::nearest(num * per, den);
    lemma_nearest(num * per, den);
    let s = fmt::fixed(num, den, places);
    if places > 0 {
        let a = text::decimal(t / per);
        let r = t % per;
        let d = text::decimal(r);
        let b = text::padded_left(d, '0', places);
        assert(r < per);
        lemma_short(r);
        list_laws::lemma_decimal_reads_back(t / per);
        list_laws::lemma_decimal_reads_back(r);
        if d.len() < places {
            assert(b == seq!['0'] + d);
            lemma_zero_in_front(d);
        }
        assert(b.len() == places);
        assert(s == a + seq!['.'] + b);
        let k = s.len() - places;
        assert(s.skip(k) == b);
        assert(s.take(k - 1) == a);
        assert forall|i: int| k <= i < s.len() implies '0' <= #[trigger] s[i] <= '9' by {
            assert(s[i] == b[i - k]);
            if d.len() < places && i > k {
                assert(b[i - k] == d[i - k - 1]);
            } else if d.len() == places {
                assert(b[i - k] == d[i - k]);
            }
        }
    }
    assert(points(s, t, places));
}

proof fn lemma_double_unit(n: nat, unit: nat, j: nat) -> (k: nat)
    requires
        unit == pow2(j),
    ensures
        fmt::double_unit(n, unit) == pow2(k),
        k >= j,
        n < 0x20_0000_0000_0000 * pow2(k),
        k == j || n >= 0x10_0000_0000_0000 * pow2(k),
    decreases n - unit,
{
    vstd::arithmetic::power2::lemma_pow2_pos(j);
    if n < 0x20_0000_0000_0000 * unit {
        j
    } else {
        vstd::arithmetic::power2::lemma_pow2_unfold(j + 1);
        let k = lemma_double_unit(n, 2 * unit, j + 1);
        k
    }
}

/// A whole number as a double is the nearest number with fifty-three bits, the
/// even one of two as near, and so itself where it has no more.
pub proof fn law_a_double_is_the_nearest(n: nat, m: nat)
    ensures
        n < 0x20_0000_0000_0000 ==> fmt::double(n) == n,
        exists|q: nat, k: nat|
            fmt::double(n) == q * #[trigger] pow2(k) && #[trigger] rounds(q, n, pow2(k)) && q
                <= 0x20_0000_0000_0000 && (k == 0 || q >= 0x10_0000_0000_0000),
        double::plus(n, m) == fmt::double(n + m),
{
    vstd::arithmetic::power2::lemma2_to64();
    let k = lemma_double_unit(n, 1, 0);
    let unit = pow2(k);
    vstd::arithmetic::power2::lemma_pow2_pos(k);
    let q = fmt::nearest(n, unit);
    lemma_nearest(n, unit);
    assert(fmt::double(n) == q * unit);
    assert(rounds(q, n, unit));
    if n < 0x20_0000_0000_0000 {
        assert(fmt::double_unit(n, 1) == 1);
        assert(n / 1 == n && n % 1 == 0);
        assert(fmt::nearest(n, 1) == n);
        assert(n * 1 == n) by (nonlinear_arith);
    }
    assert(q <= 0x20_0000_0000_0000) by (nonlinear_arith)
        requires
            2 * q * unit <= 2 * n + unit,
            n < 0x20_0000_0000_0000 * unit,
            unit > 0,
    ;
    if k > 0 {
        assert(q >= 0x10_0000_0000_0000) by (nonlinear_arith)
            requires
                2 * n <= 2 * q * unit + unit,
                n >= 0x10_0000_0000_0000 * unit,
                unit > 0,
        ;
    }
}

proof fn lemma_doubled(num: nat, den: nat, ns: nat, j: nat) -> (k: nat)
    requires
        0 < num < 9_007_199_254_740_992_000_000_000,
        den == pow2(j),
        num == ns * den,
    ensures
        fmt::doubled(num, den) == (ns * pow2(k), pow2(k)),
        4_503_599_627_370_496_000_000_000 <= ns * pow2(k) < 9_007_199_254_740_992_000_000_000,
    decreases 9_007_199_254_740_992_000_000_000 - num,
{
    if num >= 4_503_599_627_370_496_000_000_000 {
        j
    } else {
        vstd::arithmetic::power2::lemma_pow2_unfold(j + 1);
        assert(2 * num == ns * (2 * den)) by (nonlinear_arith)
            requires
                num == ns * den,
        ;
        let k = lemma_doubled(2 * num, 2 * den, ns, j + 1);
        k
    }
}

/// A time is written from the double nearest to it in seconds: a fraction over
/// a power of two, with all fifty-three bits of one, and none nearer.
pub proof fn law_seconds_are_the_nearest_double(ns: u64)
    ensures
        ({
            let (num, den) = fmt::in_seconds(ns as nat);
            &&& exists|k: nat| den == #[trigger] pow2(k)
            &&& ns == 0 ==> num == 0
            &&& ns > 0 ==> 0x10_0000_0000_0000 <= num <= 0x20_0000_0000_0000
            &&& rounds(num, ns as nat * den, 1_000_000_000)
        }),
{
    vstd::arithmetic::power2::lemma2_to64();
    let (num, den) = fmt::in_seconds(ns as nat);
    if ns == 0 {
        assert(fmt::doubled(0, 1) == (0nat, 1nat));
        assert(den == pow2(0));
        lemma_nearest(0, 1_000_000_000);
        assert(0 * den == 0);
    } else {
        assert(ns as nat * 1 == ns as nat);
        let k = lemma_doubled(ns as nat, 1, ns as nat, 0);
        assert(den == pow2(k));
        lemma_nearest(ns as nat * den, 1_000_000_000);
    }
}

/// A time in the table is seconds to two places.
pub proof fn law_a_time_is_written_to_two_places(ns: u64)
    ensures
        ({
            let (num, den) = fmt::in_seconds(ns as nat);
            exists|t: nat| #[trigger]
                points(fmt::seconds_text(ns as nat), t, 2) && rounds(t, num * 100, den)
        }),
{
    law_seconds_are_the_nearest_double(ns);
    let (num, den) = fmt::in_seconds(ns as nat);
    let k = choose|k: nat| den == #[trigger] pow2(k);
    vstd::arithmetic::power2::lemma_pow2_pos(k);
    law_a_fraction_is_written_to_its_places(num, den, 2);
    let t = choose|t: nat| #[trigger]
        points(fmt::fixed(num, den, 2), t, 2) && rounds(t, num * 100, den);
    assert(points(fmt::seconds_text(ns as nat), t, 2) && rounds(t, num * 100, den));
}

/// A duration is seconds to one place, and past a minute the minutes that fit
/// in it and what is left over, in two digits and a place.
pub proof fn law_a_duration_has_its_minutes_apart(ns: u64)
    ensures
        ({
            let (num, den) = fmt::in_seconds(ns as nat);
            let s = fmt::span_text(ns as nat);
            &&& num < 60 * den ==> s == fmt::fixed(num, den, 1) + "s"@
            &&& num >= 60 * den ==> exists|mins: nat, rest: nat|
                mins > 0 && num == #[trigger] (mins * (60 * den)) + rest && rest < 60 * den && s
                    == #[trigger] text::decimal(mins) + "m"@ + text::padded_left(
                    #[trigger] fmt::fixed(rest, den, 1),
                    '0',
                    4,
                ) + "s"@
        }),
{
    reveal_strlit("s");
    reveal_strlit("m");
    assert("s"@ == seq!['s'] && "m"@ == seq!['m']);
    law_seconds_are_the_nearest_double(ns);
    let (num, den) = fmt::in_seconds(ns as nat);
    let k = choose|k: nat| den == #[trigger] pow2(k);
    vstd::arithmetic::power2::lemma_pow2_pos(k);
    if num >= 60 * den {
        let minute = 60 * den;
        let mins = num / minute;
        let rest = num % minute;
        vstd::arithmetic::div_mod::lemma_fundamental_div_mod(num as int, minute as int);
        assert(num == mins * minute + rest) by (nonlinear_arith)
            requires
                num == minute * mins + rest,
        ;
        assert(mins > 0) by (nonlinear_arith)
            requires
                num >= minute,
                num == mins * minute + rest,
                rest < minute,
        ;
        assert(fmt::span_text(ns as nat) == text::decimal(mins) + "m"@ + text::padded_left(
            fmt::fixed(rest, den, 1),
            '0',
            4,
        ) + "s"@);
    }
}

/// How many decimal places a size of `kib / den` has: about three figures in
/// all.
pub open spec fn figures(kib: nat, den: nat) -> nat {
    if kib < 10 * den {
        2
    } else if kib < 100 * den {
        1
    } else {
        0
    }
}

/// A size is in the largest of KiB, MiB and GiB that there is one of, to about
/// three figures, going by the double nearest to it. One below zero is in KiB.
pub proof fn law_a_size_is_in_the_largest_unit(kib: int)
    ensures
        ({
            let v = fmt::double(
                (if kib < 0 {
                    -kib
                } else {
                    kib
                }) as nat,
            );
            &&& -0x20_0000_0000_0000 < kib < 0x20_0000_0000_0000 ==> v == kib || v == -kib
            &&& kib < 0 ==> fmt::bytes_text(kib) == "-"@ + fmt::fixed(v, 1, 2) + "KiB"@
            &&& kib >= 0 && v < 1024 ==> fmt::bytes_text(kib) == fmt::fixed(v, 1, figures(v, 1))
                + "KiB"@
            &&& kib >= 0 && 1024 <= v < 1048576 ==> fmt::bytes_text(kib) == fmt::fixed(
                v,
                1024,
                figures(v, 1024),
            ) + "MiB"@
            &&& kib >= 0 && v >= 1048576 ==> fmt::bytes_text(kib) == fmt::fixed(
                v,
                1048576,
                figures(v, 1048576),
            ) + "GiB"@
        }),
{
    reveal_strlit("-");
    assert("-"@ == seq!['-']);
    if kib < 0 {
        law_a_double_is_the_nearest((-kib) as nat, 0);
    } else {
        law_a_double_is_the_nearest(kib as nat, 0);
    }
}

/// A time in ticks is the double nearest to it in seconds, of which there are
/// two to the eighty-second ticks each, and ticks are written as those seconds
/// to two places.
pub proof fn law_ticks_are_parts_of_a_second(ns: u64, ticks: nat)
    ensures
        ({
            let (num, den) = fmt::in_seconds(ns as nat);
            double::ticks(ns as nat) * den == num * pow2(82)
        }),
        exists|t: nat| #[trigger]
            points(double::text_of(ticks), t, 2) && rounds(t, ticks * 100, pow2(82)),
{
    vstd::arithmetic::power2::lemma_pow2_pos(82);
    law_a_fraction_is_written_to_its_places(ticks, pow2(82), 2);
    let t = choose|t: nat| #[trigger]
        points(fmt::fixed(ticks, pow2(82), 2), t, 2) && rounds(t, ticks * 100, pow2(82));
    assert(points(double::text_of(ticks), t, 2) && rounds(t, ticks * 100, pow2(82)));
    let (num, den) = fmt::in_seconds(ns as nat);
    let part = pow2(82) / den;
    double::lemma_den(ns);
    let j = choose|j: nat| j <= 82 && den == #[trigger] pow2(j);
    vstd::arithmetic::power2::lemma_pow2_pos(j);
    vstd::arithmetic::power2::lemma_pow2_adds(j, (82 - j) as nat);
    let rest = pow2((82 - j) as nat);
    vstd::arithmetic::div_mod::lemma_div_multiples_vanish(rest as int, den as int);
    assert(part == rest);
    assert(num * part * den == num * (den * rest)) by (nonlinear_arith)
        requires
            part == rest,
    ;
}

} // verus!
