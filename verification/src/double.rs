//! Times added the way doubles of seconds add: in order, each sum rounded to
//! the nearest double, and to the even one of two as near.
//!
//! Every double that a time in nanoseconds comes out as is a whole number of
//! ticks, 2 to the power of 82 of them to a second, so all of this is done on
//! whole numbers.

use vstd::arithmetic::power2::pow2;
use vstd::prelude::*;

use crate::fmt;

verus! {

/// How many times a second is halved to make a tick.
pub const TICK: u32 = 82;

/// A double of seconds that is not negative: `m` times 2 to the power of `e`,
/// in ticks.
#[derive(Clone, Copy, Debug, PartialEq, Eq)]
pub struct Seconds {
    pub m: u64,
    pub e: u32,
}

/// The double nearest to `ns` nanoseconds in seconds, in ticks.
pub open spec fn ticks(ns: nat) -> nat {
    let (num, den) = fmt::in_seconds(ns);
    num * (pow2(TICK as nat) / den)
}

/// Two doubles added: the double nearest to their sum.
pub open spec fn plus(a: nat, b: nat) -> nat {
    fmt::double(a + b)
}

/// Some ticks in seconds, to two places: `12.34`.
pub open spec fn text_of(ticks: nat) -> Seq<char> {
    fmt::fixed(ticks, pow2(TICK as nat), 2)
}

impl View for Seconds {
    type V = nat;

    /// How many ticks it is.
    open spec fn view(&self) -> nat {
        self.m as nat * pow2(self.e as nat)
    }
}

impl Seconds {
    /// Whether it is zero, or has all the bits of a double and is small enough
    /// to write.
    pub open spec fn well_formed(&self) -> bool {
        &&& self.m == 0 || 0x10_0000_0000_0000 <= self.m < 0x20_0000_0000_0000
        &&& self.e <= 120
    }

    /// Whether it is a time that nanoseconds can be counted to.
    pub open spec fn counted(&self) -> bool {
        self.well_formed() && self.e <= 65
    }

    /// No time at all.
    pub fn zero() -> (r: Seconds)
        ensures
            r@ == 0,
            r.counted(),
    {
        let r = Seconds { m: 0, e: 0 };
        assert(r@ == 0) by (nonlinear_arith)
            requires
                r@ == r.m as nat * pow2(r.e as nat),
                r.m == 0,
        ;
        r
    }

    /// The double nearest to `ns` nanoseconds in seconds.
    pub fn of(ns: u64) -> (r: Seconds)
        ensures
            r@ == ticks(ns as nat),
            r.counted(),
    {
        proof {
            lemma_powers();
        }
        if ns == 0 {
            assert(ticks(0) == 0) by {
                assert(fmt::in_seconds(0) == (0nat, 1nat));
                assert(0nat * (pow2(82) / 1) == 0);
            }
            return Seconds::zero();
        }
        let mut num: u128 = ns as u128;
        let mut k: u32 = 0;
        while num < 4_503_599_627_370_496_000_000_000
            invariant
                ns > 0,
                k <= 82,
                0 < num < 9_007_199_254_740_992_000_000_000,
                num == ns as nat * pow2(k as nat),
                fmt::doubled(ns as nat, 1) == fmt::doubled(num as nat, pow2(k as nat)),
                pow2(82) > 4_503_599_627_370_496_000_000_000,
            decreases 9_007_199_254_740_992_000_000_000 - num,
        {
            proof {
                vstd::arithmetic::power2::lemma_pow2_unfold((k + 1) as nat);
                assert(pow2(k as nat) <= num) by (nonlinear_arith)
                    requires
                        num == ns as nat * pow2(k as nat),
                        ns > 0,
                ;
                if k == 82 {
                    assert(false);
                }
                assert(2 * num == ns as nat * (2 * pow2(k as nat))) by (nonlinear_arith)
                    requires
                        num == ns as nat * pow2(k as nat),
                ;
            }
            num = 2 * num;
            k = k + 1;
        }
        proof {
            if k < 18 {
                lemma_pow2_up(k as nat, 17);
                assert(num <= 0xffff_ffff_ffff_ffff * 0x20000) by (nonlinear_arith)
                    requires
                        num == ns as nat * pow2(k as nat),
                        ns <= 0xffff_ffff_ffff_ffff,
                        pow2(k as nat) <= 0x20000,
                ;
                assert(false);
            }
        }
        let m: u128 = fmt::divide(num, 1_000_000_000);
        let e: u32 = 82 - k;
        proof {
            vstd::arithmetic::power2::lemma_pow2_subtracts(k as nat, 82);
            assert(0x10_0000_0000_0000 <= m <= 0x20_0000_0000_0000);
            assert(ticks(ns as nat) == m as nat * pow2(e as nat));
        }
        normal(m, e)
    }

    /// This and `other`, to the nearest double.
    pub fn plus(&self, other: &Seconds) -> (r: Seconds)
        requires
            self.well_formed(),
            other.counted(),
        ensures
            r@ == plus(self@, other@),
            r.well_formed(),
    {
        proof {
            lemma_is_double(self.m as nat, self.e as nat);
            lemma_is_double(other.m as nat, other.e as nat);
            assert(self.m == 0 ==> self@ == 0) by (nonlinear_arith)
                requires
                    self@ == self.m as nat * pow2(self.e as nat),
            ;
            assert(other.m == 0 ==> other@ == 0) by (nonlinear_arith)
                requires
                    other@ == other.m as nat * pow2(other.e as nat),
            ;
        }
        if self.m == 0 {
            *other
        } else if other.m == 0 {
            *self
        } else if self.e >= other.e {
            add_smaller(self, other)
        } else {
            assert(self@ + other@ == other@ + self@);
            add_smaller(other, self)
        }
    }

    /// The time in seconds, to two places: `12.34`.
    pub fn write(&self) -> (s: String)
        requires
            self.well_formed(),
        ensures
            s@ == text_of(self@),
    {
        proof {
            lemma_powers();
        }
        let ghost m = self.m as nat;
        if self.e <= 82 {
            let den: u128 = power(82 - self.e);
            proof {
                vstd::arithmetic::power2::lemma_pow2_adds((82 - self.e) as nat, self.e as nat);
                lemma_pow2_up((82 - self.e) as nat, 82);
                lemma_fixed(m, den as nat, self.e as nat);
            }
            fmt::write_fixed(self.m as u128, den, 2)
        } else {
            let by: u32 = self.e - 82;
            let up: u128 = power(by);
            proof {
                vstd::arithmetic::power2::lemma_pow2_adds(by as nat, 82);
                lemma_pow2_up(by as nat, 38);
                assert(m * up <= 0x20_0000_0000_0000 * 0x40_0000_0000) by (nonlinear_arith)
                    requires
                        m <= 0x20_0000_0000_0000,
                        up <= 0x40_0000_0000,
                ;
                assert(m * up * pow2(82) == self@) by (nonlinear_arith)
                    requires
                        self@ == m * pow2(self.e as nat),
                        pow2(self.e as nat) == up * pow2(82),
                ;
                lemma_fixed((m * up) as nat, 1, 82);
            }
            fmt::write_fixed(self.m as u128 * up, 1, 2)
        }
    }
}

/// `m` times 2 to the power of `e`, with `m` below what takes another bit.
fn normal(m: u128, e: u32) -> (r: Seconds)
    requires
        0x10_0000_0000_0000 <= m <= 0x20_0000_0000_0000,
        e < u32::MAX,
    ensures
        r@ == m as nat * pow2(e as nat),
        0x10_0000_0000_0000 <= r.m < 0x20_0000_0000_0000,
        r.e <= e + 1,
{
    if m == 0x20_0000_0000_0000 {
        let r = Seconds { m: 0x10_0000_0000_0000, e: e + 1 };
        proof {
            vstd::arithmetic::power2::lemma_pow2_unfold((e + 1) as nat);
            assert(0x10_0000_0000_0000 * (2 * pow2(e as nat)) == 0x20_0000_0000_0000 * pow2(
                e as nat,
            ));
        }
        r
    } else {
        Seconds { m: m as u64, e }
    }
}

/// 2 to the power of `e`.
fn power(e: u32) -> (p: u128)
    requires
        e <= 100,
    ensures
        p == pow2(e as nat),
{
    proof {
        lemma_powers();
    }
    let mut p: u128 = 1;
    let mut i: u32 = 0;
    while i < e
        invariant
            i <= e <= 100,
            p == pow2(i as nat),
            pow2(100) == 0x10_0000_0000_0000_0000_0000_0000,
        decreases e - i,
    {
        proof {
            vstd::arithmetic::power2::lemma_pow2_unfold((i + 1) as nat);
            lemma_pow2_up((i + 1) as nat, 100);
        }
        p = 2 * p;
        i = i + 1;
    }
    p
}

/// `big` and `small`, whose bits start no higher, to the nearest double.
fn add_smaller(big: &Seconds, small: &Seconds) -> (r: Seconds)
    requires
        big.well_formed(),
        small.well_formed(),
        big.m > 0,
        small.m > 0,
        big.e >= small.e,
        big.e <= 118 || small.e <= 65,
    ensures
        r@ == plus(big@, small@),
        r.well_formed(),
{
    let d: u32 = big.e - small.e;
    if d >= 54 {
        proof {
            let r = small@;
            lemma_pow2_up((small.e + 53) as nat, (big.e - 1) as nat);
            vstd::arithmetic::power2::lemma_pow2_adds(53, small.e as nat);
            lemma_powers();
            vstd::arithmetic::power2::lemma_pow2_pos(small.e as nat);
            assert(r < 0x20_0000_0000_0000 * pow2(small.e as nat)) by (nonlinear_arith)
                requires
                    r == small.m as nat * pow2(small.e as nat),
                    small.m < 0x20_0000_0000_0000,
                    pow2(small.e as nat) > 0,
            ;
            lemma_too_small(big.m as nat, big.e as nat, r);
        }
        return *big;
    }
    let up: u128 = power(d);
    proof {
        lemma_powers();
        lemma_pow2_up(d as nat, 53);
        assert(big.m * up <= 0x20_0000_0000_0000 * up) by (nonlinear_arith)
            requires
                big.m <= 0x20_0000_0000_0000,
        ;
        vstd::arithmetic::power2::lemma_pow2_pos(d as nat);
        assert(big.m * up >= big.m) by (nonlinear_arith)
            requires
                up >= 1,
        ;
    }
    let n: u128 = big.m as u128 * up + small.m as u128;
    assert(n < 0x40_0000_0000_0000 * up);
    let mut unit: u128 = 1;
    let mut j: u32 = 0;
    while n >= 0x20_0000_0000_0000 * unit
        invariant
            0x10_0000_0000_0000 <= n < 0x40_0000_0000_0000 * up,
            up == pow2(d as nat),
            up <= 0x20_0000_0000_0000,
            d < 54,
            j <= d + 1,
            1 <= unit <= 2 * up,
            unit == pow2(j as nat),
            j == 0 || n >= 0x10_0000_0000_0000 * unit,
            fmt::double_unit(n as nat, 1) == fmt::double_unit(n as nat, unit as nat),
        decreases 2 * up - unit,
    {
        proof {
            assert(unit < 2 * up);
            if j == d + 1 {
                vstd::arithmetic::power2::lemma_pow2_unfold((d + 1) as nat);
                assert(false);
            }
            if unit > up {
                if j <= d {
                    lemma_pow2_up(j as nat, d as nat);
                }
                assert(false);
            }
            vstd::arithmetic::power2::lemma_pow2_unfold((j + 1) as nat);
        }
        unit = 2 * unit;
        j = j + 1;
    }
    let m: u128 = fmt::divide(n, unit);
    proof {
        assert(0x10_0000_0000_0000 <= n as int / unit as int) by (nonlinear_arith)
            requires
                n >= 0x10_0000_0000_0000 * unit,
                unit >= 1,
        ;
        assert((n as int) / (unit as int) < 0x20_0000_0000_0000) by (nonlinear_arith)
            requires
                n < 0x20_0000_0000_0000 * unit,
                unit >= 1,
                n >= 0,
        ;
        assert(fmt::double(n as nat) == m as nat * unit as nat);
    }
    let r = normal(m, small.e + j);
    proof {
        let s = pow2(small.e as nat);
        vstd::arithmetic::power2::lemma_pow2_adds(d as nat, small.e as nat);
        vstd::arithmetic::power2::lemma_pow2_adds(j as nat, small.e as nat);
        lemma_double_scales(n as nat, small.e as nat);
        assert(n as nat * s == big@ + small@) by (nonlinear_arith)
            requires
                n == big.m * up + small.m,
                big@ == big.m as nat * pow2(big.e as nat),
                small@ == small.m as nat * s,
                pow2(big.e as nat) == up * s,
        ;
        assert(m as nat * pow2((small.e + j) as nat) == m as nat * unit as nat * s)
            by (nonlinear_arith)
            requires
                pow2((small.e + j) as nat) == unit as nat * s,
        ;
    }
    r
}

proof fn lemma_powers()
    ensures
        pow2(0) == 1,
        pow2(17) == 0x2_0000,
        pow2(38) == 0x40_0000_0000,
        pow2(53) == 0x20_0000_0000_0000,
        pow2(82) == 0x4_0000_0000_0000_0000_0000,
        pow2(100) == 0x10_0000_0000_0000_0000_0000_0000,
{
    vstd::arithmetic::power2::lemma2_to64();
    vstd::arithmetic::power2::lemma2_to64_rest();
    vstd::arithmetic::power2::lemma_pow2_adds(41, 41);
    vstd::arithmetic::power2::lemma_pow2_adds(50, 50);
}

proof fn lemma_pow2_up(a: nat, b: nat)
    requires
        a <= b,
    ensures
        pow2(a) <= pow2(b),
{
    if a < b {
        vstd::arithmetic::power2::lemma_pow2_strictly_increases(a, b);
    }
}

proof fn lemma_nearest_twice(n: nat, d: nat)
    requires
        d > 0,
    ensures
        fmt::nearest(2 * n, 2 * d) == fmt::nearest(n, d),
{
    let q = n / d;
    let r = n % d;
    vstd::arithmetic::div_mod::lemma_fundamental_div_mod(n as int, d as int);
    assert(2 * n == q * (2 * d) + 2 * r) by (nonlinear_arith)
        requires
            n == d * q + r,
    ;
    vstd::arithmetic::div_mod::lemma_fundamental_div_mod_converse(
        2 * n as int,
        2 * d as int,
        q as int,
        2 * r as int,
    );
}

proof fn lemma_nearest_scales(n: nat, d: nat, e: nat)
    requires
        d > 0,
    ensures
        fmt::nearest(n * pow2(e), d * pow2(e)) == fmt::nearest(n, d),
    decreases e,
{
    lemma_powers();
    if e == 0 {
        assert(n * 1 == n && d * 1 == d);
    } else {
        let p = pow2((e - 1) as nat);
        vstd::arithmetic::power2::lemma_pow2_unfold(e);
        vstd::arithmetic::power2::lemma_pow2_pos((e - 1) as nat);
        lemma_nearest_scales(n, d, (e - 1) as nat);
        assert(n * (2 * p) == 2 * (n * p)) by (nonlinear_arith);
        assert(d * (2 * p) == 2 * (d * p)) by (nonlinear_arith);
        assert(d * p > 0) by (nonlinear_arith)
            requires
                d > 0,
                p > 0,
        ;
        lemma_nearest_twice(n * p, d * p);
    }
}

/// A fraction reads the same with both halves doubled any number of times.
proof fn lemma_fixed(num: nat, den: nat, e: nat)
    requires
        den > 0,
    ensures
        fmt::fixed(num * pow2(e), den * pow2(e), 2) == fmt::fixed(num, den, 2),
{
    let u = fmt::units(2);
    lemma_nearest_scales(num * u, den, e);
    assert(num * pow2(e) * u == num * u * pow2(e)) by (nonlinear_arith);
}

proof fn lemma_unit_twice(n: nat, unit: nat)
    requires
        unit > 0,
    ensures
        fmt::double_unit(2 * n, 2 * unit) == 2 * fmt::double_unit(n, unit),
        fmt::double_unit(n, unit) > 0,
    decreases
            if n > unit {
                n - unit
            } else {
                0
            },
{
    if n >= 0x20_0000_0000_0000 * unit {
        lemma_unit_twice(n, 2 * unit);
    }
}

proof fn lemma_exact(n: nat)
    requires
        n < 0x20_0000_0000_0000,
    ensures
        fmt::double(n) == n,
{
    assert(fmt::double_unit(n, 1) == 1);
    assert(fmt::nearest(n, 1) == n);
    assert(n * 1 == n);
}

proof fn lemma_double_twice(n: nat)
    ensures
        fmt::double(2 * n) == 2 * fmt::double(n),
{
    let unit = fmt::double_unit(n, 1);
    lemma_unit_twice(n, 1);
    if 2 * n < 0x20_0000_0000_0000 {
        lemma_exact(n);
        lemma_exact(2 * n);
    } else {
        assert(fmt::double_unit(2 * n, 1) == fmt::double_unit(2 * n, 2 * 1));
        lemma_nearest_twice(n, unit);
        let t = fmt::nearest(n, unit);
        assert(t * (2 * unit) == 2 * (t * unit)) by (nonlinear_arith);
    }
}

proof fn lemma_double_scales(n: nat, e: nat)
    ensures
        fmt::double(n * pow2(e)) == fmt::double(n) * pow2(e),
    decreases e,
{
    lemma_powers();
    if e == 0 {
        assert(n * 1 == n && fmt::double(n) * 1 == fmt::double(n));
    } else {
        let p = pow2((e - 1) as nat);
        vstd::arithmetic::power2::lemma_pow2_unfold(e);
        lemma_double_scales(n, (e - 1) as nat);
        lemma_double_twice(n * p);
        assert(n * (2 * p) == 2 * (n * p)) by (nonlinear_arith);
        let t = fmt::double(n);
        assert(t * (2 * p) == 2 * (t * p)) by (nonlinear_arith);
    }
}

/// What has no more bits than a double is one.
proof fn lemma_is_double(m: nat, e: nat)
    requires
        m < 0x20_0000_0000_0000,
    ensures
        fmt::double(m * pow2(e)) == m * pow2(e),
{
    lemma_double_scales(m, e);
    lemma_exact(m);
}

proof fn lemma_unit_reaches(n: nat, m: nat, e: nat, i: nat)
    requires
        0x10_0000_0000_0000 <= m,
        n >= m * pow2(e),
        i <= e,
    ensures
        fmt::double_unit(n, 1) == fmt::double_unit(n, pow2(i)),
    decreases i,
{
    lemma_powers();
    if i > 0 {
        let p = pow2((i - 1) as nat);
        lemma_unit_reaches(n, m, e, (i - 1) as nat);
        vstd::arithmetic::power2::lemma_pow2_unfold(i);
        vstd::arithmetic::power2::lemma_pow2_pos((i - 1) as nat);
        lemma_pow2_up(i, e);
        assert(n >= 0x20_0000_0000_0000 * p) by (nonlinear_arith)
            requires
                n >= m * pow2(e),
                m >= 0x10_0000_0000_0000,
                pow2(e) >= 2 * p,
        ;
    }
}

/// A double with less than half of its last bit added rounds back to itself.
proof fn lemma_too_small(m: nat, e: nat, r: nat)
    requires
        0x10_0000_0000_0000 <= m < 0x20_0000_0000_0000,
        e > 0,
        r < pow2((e - 1) as nat),
    ensures
        fmt::double(m * pow2(e) + r) == m * pow2(e),
{
    let u = pow2(e);
    let n = m * u + r;
    vstd::arithmetic::power2::lemma_pow2_unfold(e);
    lemma_unit_reaches(n, m, e, e);
    assert(n < 0x20_0000_0000_0000 * u) by (nonlinear_arith)
        requires
            n == m * u + r,
            m + 1 <= 0x20_0000_0000_0000,
            r < u,
    ;
    assert(m * u == u * m) by (nonlinear_arith);
    vstd::arithmetic::div_mod::lemma_fundamental_div_mod_converse(
        n as int,
        u as int,
        m as int,
        r as int,
    );
}

proof fn lemma_doubled(ns: nat, num: nat, k: nat) -> (j: nat)
    requires
        ns > 0,
        num == ns * pow2(k),
        num < 9_007_199_254_740_992_000_000_000,
        k <= 82,
    ensures
        fmt::doubled(num, pow2(k)).1 == pow2(j),
        j <= 82,
    decreases 82 - k,
{
    lemma_powers();
    if num == 0 || num >= 4_503_599_627_370_496_000_000_000 {
        k
    } else {
        let p = pow2(k);
        vstd::arithmetic::power2::lemma_pow2_unfold((k + 1) as nat);
        assert(p <= num) by (nonlinear_arith)
            requires
                num == ns * p,
                ns > 0,
        ;
        assert(2 * num == ns * (2 * p)) by (nonlinear_arith)
            requires
                num == ns * p,
        ;
        lemma_doubled(ns, 2 * num, k + 1)
    }
}

/// A time in seconds is a fraction over a power of two no smaller than a tick.
pub proof fn lemma_den(ns: u64)
    ensures
        exists|j: nat| j <= 82 && fmt::in_seconds(ns as nat).1 == #[trigger] pow2(j),
{
    lemma_powers();
    if ns == 0 {
        assert(fmt::in_seconds(0).1 == pow2(0));
    } else {
        assert(ns as nat * 1 == ns as nat);
        let j = lemma_doubled(ns as nat, ns as nat, 0);
        assert(fmt::in_seconds(ns as nat).1 == pow2(j));
    }
}

/// A time alone reads the same in ticks as in seconds.
pub proof fn law_a_time_reads_the_same_in_ticks(ns: u64)
    ensures
        text_of(ticks(ns as nat)) == fmt::seconds_text(ns as nat),
{
    lemma_powers();
    let (num, den) = fmt::in_seconds(ns as nat);
    if ns == 0 {
        assert(den == pow2(0));
        lemma_whole(num, 0);
    } else {
        assert(ns as nat * 1 == ns as nat);
        let j = lemma_doubled(ns as nat, ns as nat, 0);
        lemma_whole(num, j);
    }
}

proof fn lemma_whole(num: nat, j: nat)
    requires
        j <= 82,
    ensures
        text_of(num * (pow2(82) / pow2(j))) == fmt::fixed(num, pow2(j), 2),
{
    let e = (82 - j) as nat;
    vstd::arithmetic::power2::lemma_pow2_subtracts(j, 82);
    vstd::arithmetic::power2::lemma_pow2_adds(j, e);
    vstd::arithmetic::power2::lemma_pow2_pos(j);
    lemma_fixed(num, pow2(j), e);
}

} // verus!
