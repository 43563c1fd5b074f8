//! Peak memory and times the way the table and the progress lines both write
//! them.
//!
//! A time is a whole number of nanoseconds. What is written is the double
//! nearest to it in seconds, and that double is a binary fraction, so both it
//! and a size in binary units are written by exact integer arithmetic.

use vstd::prelude::*;

use crate::text;

verus! {

/// `num / den` to the nearest whole number, and to the even one of two as near.
pub open spec fn nearest(num: nat, den: nat) -> nat
    recommends
        den > 0,
{
    let q = num / den;
    let r = num % den;
    if 2 * r > den || (2 * r == den && q % 2 == 1) {
        q + 1
    } else {
        q
    }
}

/// How many units `places` decimal places divide one into.
pub open spec fn units(places: nat) -> nat
    decreases places,
{
    if places == 0 {
        1
    } else {
        10 * units((places - 1) as nat)
    }
}

/// `num / den` to `places` decimal places.
pub open spec fn fixed(num: nat, den: nat, places: nat) -> Seq<char> {
    let t = nearest(num * units(places), den);
    if places == 0 {
        text::decimal(t)
    } else {
        text::decimal(t / units(places)) + seq!['.'] + text::padded_left(
            text::decimal(t % units(places)),
            '0',
            places,
        )
    }
}

/// `num / den` to `places` decimal places.
pub fn write_fixed(num: u128, den: u128, places: usize) -> (s: String)
    requires
        num <= 0x10_0000_0000_0000_0000_0000_0000,
        0 < den <= 0x1000_0000_0000_0000_0000_0000,
        places <= 2,
    ensures
        s@ == fixed(num as nat, den as nat, places as nat),
{
    proof {
        reveal_with_fuel(units, 3);
    }
    let per: u128 = match places {
        0 => 1,
        1 => 10,
        _ => 100,
    };
    assert(num * per <= 0x10_0000_0000_0000_0000_0000_0000 * 100) by (nonlinear_arith)
        requires
            num <= 0x10_0000_0000_0000_0000_0000_0000,
            per <= 100,
    ;
    let n: u128 = num * per;
    let q: u128 = n / den;
    let r: u128 = n % den;
    assert(q <= n) by {
        vstd::arithmetic::div_mod::lemma_div_is_ordered_by_denominator(n as int, 1, den as int);
        vstd::arithmetic::div_mod::lemma_div_basics(n as int);
    }
    let t: u128 = if 2 * r > den || (2 * r == den && q % 2 == 1) {
        q + 1
    } else {
        q
    };
    let mut s = String::new();
    if places == 0 {
        text::push_decimal(&mut s, t);
    } else {
        text::push_decimal(&mut s, t / per);
        s.push('.');
        let part = text::write_decimal(t % per);
        let tail = text::pad_left(part.as_str(), '0', places);
        s.append(tail.as_str());
    }
    assert(s@ == fixed(num as nat, den as nat, places as nat));
    s
}


/// The smallest power of two, times `unit`, that leaves `n` within what a
/// double holds exactly.
pub open spec fn double_unit(n: nat, unit: nat) -> nat
    decreases n - unit,
{
    if unit == 0 || n < 0x20_0000_0000_0000 * unit {
        unit
    } else {
        double_unit(n, 2 * unit)
    }
}

/// The double nearest to the whole number `n`.
pub open spec fn double(n: nat) -> nat {
    let unit = double_unit(n, 1);
    nearest(n, unit) * unit
}

/// The double nearest to the whole number `n`.
fn to_double(n: u128) -> (v: u128)
    requires
        n <= 0x8000_0000_0000_0000,
    ensures
        v == double(n as nat),
        v <= 0x1_0000_0000_0000_0000,
{
    let mut unit: u128 = 1;
    while n >= 0x20_0000_0000_0000 * unit
        invariant
            n <= 0x8000_0000_0000_0000,
            1 <= unit <= 0x800,
            double_unit(n as nat, 1) == double_unit(n as nat, unit as nat),
        decreases 0x1000 - unit,
    {
        unit = 2 * unit;
    }
    let q: u128 = n / unit;
    let r: u128 = n % unit;
    proof {
        vstd::arithmetic::div_mod::lemma_fundamental_div_mod(n as int, unit as int);
        assert(q < 0x20_0000_0000_0000) by {
            vstd::arithmetic::div_mod::lemma_multiply_divide_lt(
                n as int,
                unit as int,
                0x20_0000_0000_0000,
            );
        }
    }
    let t: u128 = if 2 * r > unit || (2 * r == unit && q % 2 == 1) {
        q + 1
    } else {
        q
    };
    assert(t * unit <= 0x20_0000_0000_0000 * 0x800) by (nonlinear_arith)
        requires
            t <= 0x20_0000_0000_0000,
            unit <= 0x800,
    ;
    t * unit
}

/// A size of `kib / den` in `unit`, to about three significant figures.
pub open spec fn sized(kib: nat, den: nat, unit: Seq<char>) -> Seq<char> {
    let places = if kib >= 100 * den {
        0nat
    } else if kib >= 10 * den {
        1
    } else {
        2
    };
    fixed(kib, den, places) + unit
}

/// Peak memory in binary units, to about three significant figures: 940KiB,
/// 10.4MiB, 1.02GiB.
pub open spec fn bytes_text(kib: int) -> Seq<char> {
    if kib < 0 {
        seq!['-'] + fixed(double((-kib) as nat), 1, 2) + "KiB"@
    } else {
        let v = double(kib as nat);
        if v < 1024 {
            sized(v, 1, "KiB"@)
        } else if v < 1024 * 1024 {
            sized(v, 1024, "MiB"@)
        } else {
            sized(v, 1024 * 1024, "GiB"@)
        }
    }
}

/// Peak memory in binary units, to about three significant figures: 940KiB,
/// 10.4MiB, 1.02GiB.
pub fn bytes(kib: i64) -> (s: String)
    ensures
        s@ == bytes_text(kib as int),
{
    if kib < 0 {
        let v: u128 = to_double((-(kib as i128)) as u128);
        let mut s = String::new();
        s.push('-');
        s.append(write_fixed(v, 1, 2).as_str());
        s.append("KiB");
        assert(s@ == bytes_text(kib as int));
        return s;
    }
    let v: u128 = to_double(kib as u128);
    let (den, unit): (u128, &str) = if v < 1024 {
        (1, "KiB")
    } else if v < 1024 * 1024 {
        (1024, "MiB")
    } else {
        (1024 * 1024, "GiB")
    };
    let places: usize = if v >= 100 * den {
        0
    } else if v >= 10 * den {
        1
    } else {
        2
    };
    let mut s = write_fixed(v, den, places);
    s.append(unit);
    s
}

/// `num / den` with both doubled until `num` has as many bits as tell a double
/// of nanoseconds apart from the next.
pub open spec fn doubled(num: nat, den: nat) -> (nat, nat)
    decreases 9_007_199_254_740_992_000_000_000 - num,
{
    if num == 0 || num >= 4_503_599_627_370_496_000_000_000 {
        (num, den)
    } else {
        doubled(2 * num, 2 * den)
    }
}

/// The double nearest to `ns` nanoseconds in seconds, as a fraction.
pub open spec fn in_seconds(ns: nat) -> (nat, nat) {
    let (num, den) = doubled(ns, 1);
    (nearest(num, 1_000_000_000), den)
}

/// `num / den` to the nearest whole number, and to the even one of two as near.
pub fn divide(num: u128, den: u128) -> (t: u128)
    requires
        0 < den <= 0x1000_0000_0000_0000_0000_0000,
    ensures
        t == nearest(num as nat, den as nat),
        t <= num / den + 1,
{
    let q: u128 = num / den;
    let r: u128 = num % den;
    if 2 * r > den || (2 * r == den && q % 2 == 1) {
        assert(q < num || q == 0 || den == 1) by (nonlinear_arith)
            requires
                q == num / den,
                den > 0,
        ;
        q + 1
    } else {
        q
    }
}

/// The double nearest to `ns` nanoseconds in seconds, as a fraction.
fn to_seconds(ns: u64) -> (r: (u128, u128))
    ensures
        (r.0 as nat, r.1 as nat) == in_seconds(ns as nat),
        r.0 <= 0x20_0000_0000_0000,
        0 < r.1 <= 4_503_599_627_370_496_000_000_000 * 2,
{
    let mut num: u128 = ns as u128;
    let mut den: u128 = 1;
    if num == 0 {
        return (0, 1);
    }
    while num < 4_503_599_627_370_496_000_000_000
        invariant
            0 < num < 9_007_199_254_740_992_000_000_000,
            0 < den <= num,
            den <= 4_503_599_627_370_496_000_000_000 * 2,
            doubled(ns as nat, 1) == doubled(num as nat, den as nat),
        decreases 9_007_199_254_740_992_000_000_000 - num,
    {
        num = 2 * num;
        den = 2 * den;
    }
    (divide(num, 1_000_000_000), den)
}

/// A time in seconds, to two places: `12.34`.
pub open spec fn seconds_text(ns: nat) -> Seq<char> {
    let (num, den) = in_seconds(ns);
    fixed(num, den, 2)
}

/// A time in seconds, to two places: `12.34`.
pub fn seconds(ns: u64) -> (s: String)
    ensures
        s@ == seconds_text(ns as nat),
{
    let (num, den) = to_seconds(ns);
    write_fixed(num, den, 2)
}

/// A duration for display: `12.3s`, or `4m05.2s` past a minute.
pub open spec fn span_text(ns: nat) -> Seq<char> {
    let (num, den) = in_seconds(ns);
    if num < 60 * den {
        fixed(num, den, 1) + seq!['s']
    } else {
        let mins = num / (60 * den);
        let rest = num % (60 * den);
        text::decimal(mins) + seq!['m'] + text::padded_left(fixed(rest, den, 1), '0', 4) + seq!['s']
    }
}

/// A duration for display: `12.3s`, or `4m05.2s` past a minute.
pub fn span(ns: u64) -> (s: String)
    ensures
        s@ == span_text(ns as nat),
{
    let (num, den) = to_seconds(ns);
    if num < 60 * den {
        let mut s = write_fixed(num, den, 1);
        s.push('s');
        assert(s@ == span_text(ns as nat));
        return s;
    }
    let minute: u128 = 60 * den;
    let mut s = text::write_decimal(num / minute);
    s.push('m');
    assert(num % minute <= num) by {
        vstd::arithmetic::div_mod::lemma_mod_decreases(num as nat, minute as nat);
    }
    let rest = write_fixed(num % minute, den, 1);
    s.append(text::pad_left(rest.as_str(), '0', 4).as_str());
    s.push('s');
    assert(s@ == span_text(ns as nat));
    s
}

} // verus!
