//! Cpu lists as text: written the way `taskset -c` takes them, and read the
//! way the kernel writes them.

use vstd::prelude::*;

use crate::cpu::list_laws;
use crate::order;
use crate::text;

verus! {

/// Some cpus of a list, said in one go.
pub enum Span {
    /// One cpu.
    One(usize),
    /// Every cpu from the first to the second.
    Range(usize, usize),
    /// Every cpu from the first to the second that the third steps on.
    Stride(usize, usize, usize),
}

/// How many of `cpus`, from the first, lie `step` apart.
pub open spec fn run_length(cpus: Seq<usize>, step: int) -> nat
    decreases cpus.len(),
{
    if cpus.len() == 0 {
        0
    } else if cpus.len() > 1 && cpus[1] - cpus[0] == step {
        1 + run_length(cpus.skip(1), step)
    } else {
        1
    }
}

/// How many of `cpus`, which rise, the first span says, and that span.
///
/// A step of 1 is a range from two cpus on, and any other step from three:
/// `0,2` is shorter than `0-2:2`.
pub open spec fn first_span(cpus: Seq<usize>) -> (nat, Span) {
    let step = if cpus.len() > 1 {
        cpus[1] - cpus[0]
    } else {
        0
    };
    let n = run_length(cpus, step);
    if step == 1 && n >= 2 {
        (n, Span::Range(cpus[0], cpus[n - 1]))
    } else if n >= 3 {
        (n, Span::Stride(cpus[0], cpus[n - 1], step as usize))
    } else {
        (1, Span::One(cpus[0]))
    }
}

/// The spans that say `cpus`, which rise.
pub open spec fn spans(cpus: Seq<usize>) -> Seq<Span>
    decreases cpus.len(),
{
    if cpus.len() == 0 {
        Seq::empty()
    } else {
        let (n, span) = first_span(cpus);
        seq![span] + if 0 < n <= cpus.len() {
            spans(cpus.skip(n as int))
        } else {
            Seq::empty()
        }
    }
}

/// How a span is written: `3`, `0-3`, `0-94:2`.
pub open spec fn span_text(span: Span) -> Seq<char> {
    match span {
        Span::One(a) => text::decimal(a as nat),
        Span::Range(a, b) => text::decimal(a as nat) + seq!['-'] + text::decimal(b as nat),
        Span::Stride(a, b, s) => text::decimal(a as nat) + seq!['-'] + text::decimal(b as nat)
            + seq![':'] + text::decimal(s as nat),
    }
}

/// The cpus a span stands for.
pub open spec fn span_cpus(span: Span) -> Seq<usize> {
    match span {
        Span::One(a) => seq![a],
        Span::Range(a, b) => counted(a, b),
        Span::Stride(a, b, s) => Seq::new(
            ((b - a) / s as int + 1) as nat,
            |i: int| (a + i * s) as usize,
        ),
    }
}

/// The cpus some spans stand for.
pub open spec fn spans_cpus(some: Seq<Span>) -> Seq<usize>
    decreases some.len(),
{
    if some.len() == 0 {
        Seq::empty()
    } else {
        span_cpus(some[0]) + spans_cpus(some.skip(1))
    }
}

/// A cpu list in the form `taskset -c` takes: `0`, `0,2`, `0-3`, `0-94:2`,
/// empty for nothing.
pub open spec fn list_text(cpus: Seq<usize>) -> Seq<char> {
    text::joined(
        spans(order::ascending(cpus)).map_values(|span: Span| span_text(span)),
        seq![','],
    )
}

/// Every number from `lo` to `hi`, both counted, and none where they run
/// backwards.
pub open spec fn counted(lo: usize, hi: usize) -> Seq<usize> {
    if lo <= hi {
        Seq::new((hi - lo + 1) as nat, |i: int| (lo + i) as usize)
    } else {
        Seq::empty()
    }
}

/// What one part of a kernel cpulist names: a number, a range of them, or
/// nothing where it cannot be read.
pub open spec fn part_cpus(part: Seq<char>) -> Seq<usize> {
    let dash = text::find(part, '-');
    if dash < part.len() {
        match (text::number(part.take(dash as int)), text::number(part.skip(dash as int + 1))) {
            (Some(lo), Some(hi)) => counted(lo, hi),
            _ => Seq::empty(),
        }
    } else {
        match text::number(part) {
            Some(n) => seq![n],
            None => Seq::empty(),
        }
    }
}

/// What the parts of `s` name, commas between them.
pub open spec fn parts_cpus(s: Seq<char>) -> Seq<usize>
    decreases s.len(),
{
    let comma = text::find(s, ',');
    if comma < s.len() {
        part_cpus(s.take(comma as int)) + parts_cpus(s.skip(comma as int + 1))
    } else {
        part_cpus(s)
    }
}

/// The cpus a kernel cpulist names, in the order it names them.
pub open spec fn list_cpus(s: Seq<char>) -> Seq<usize> {
    parts_cpus(text::trimmed(s))
}

/// The cpus of a run lie a step apart, and the one after it does not.
pub proof fn lemma_run_length(cpus: Seq<usize>, step: int)
    requires
        cpus.len() > 0,
    ensures
        1 <= run_length(cpus, step) <= cpus.len(),
        forall|i: int|
            0 <= i < run_length(cpus, step) ==> #[trigger] cpus[i] == cpus[0] + i * step,
        run_length(cpus, step) < cpus.len() ==> cpus[run_length(cpus, step) as int]
            - cpus[run_length(cpus, step) - 1] != step,
    decreases cpus.len(),
{
    if cpus.len() > 1 && cpus[1] - cpus[0] == step {
        let t = cpus.skip(1);
        lemma_run_length(t, step);
        let n = run_length(cpus, step);
        assert forall|i: int| 0 <= i < n implies #[trigger] cpus[i] == cpus[0] + i * step by {
            if i > 0 {
                assert(cpus[i] == t[i - 1]);
                assert(t[i - 1] == t[0] + (i - 1) * step);
                assert((i - 1) * step + step == i * step) by (nonlinear_arith);
            }
        }
        if n < cpus.len() {
            assert(cpus[n as int] == t[n - 1]);
            assert(cpus[n - 1] == t[n - 2]);
        }
    }
}

proof fn lemma_run_found(cpus: Seq<usize>, step: int, n: nat)
    requires
        1 <= n <= cpus.len(),
        forall|i: int| 0 <= i < n - 1 ==> (#[trigger] cpus[i + 1]) - cpus[i] == step,
        n < cpus.len() ==> cpus[n as int] - cpus[n - 1] != step,
    ensures
        run_length(cpus, step) == n,
    decreases n,
{
    if n > 1 {
        let t = cpus.skip(1);
        assert(cpus[0int + 1] - cpus[0] == step);
        assert forall|i: int| 0 <= i < n - 2 implies (#[trigger] t[i + 1]) - t[i] == step by {
            assert(cpus[(i + 1) + 1] - cpus[i + 1] == step);
        }
        lemma_run_found(t, step, (n - 1) as nat);
    } else if cpus.len() > 1 {
        assert(cpus[1] - cpus[0] != step);
    }
}

/// How many of `cpus` from `at` on lie `step` apart.
fn measure_run(cpus: &Vec<usize>, at: usize, step: usize) -> (n: usize)
    requires
        at < cpus@.len(),
        order::rising(cpus@),
        step > 0,
    ensures
        n == run_length(cpus@.skip(at as int), step as int),
        1 <= n <= cpus@.len() - at,
{
    let mut last: usize = at;
    let len: usize = cpus.len();
    let ghost s = cpus@.skip(at as int);
    while last + 1 < len && cpus[last + 1] - cpus[last] == step
        invariant
            at <= last < len == cpus@.len(),
            order::rising(cpus@),
            s == cpus@.skip(at as int),
            forall|i: int| 0 <= i < last - at ==> (#[trigger] s[i + 1]) - s[i] == step,
        decreases cpus@.len() - last,
    {
        assert(s[(last - at) + 1] == cpus@[last + 1]);
        assert(s[last - at] == cpus@[last as int]);
        last = last + 1;
    }
    proof {
        let n = (last - at + 1) as nat;
        if n < s.len() {
            assert(s[n as int] == cpus@[last + 1]);
            assert(s[n - 1] == cpus@[last as int]);
        }
        lemma_run_found(s, step as int, n);
    }
    last - at + 1
}

/// A cpu list in the form `taskset -c` takes: `0`, `0,2`, `0-3`, `0-94:2`,
/// empty for nothing.
pub fn list(cpus: &[usize]) -> (s: String)
    ensures
        s@ == list_text(cpus@),
        list_laws::names(s@, cpus@),
{
    proof {
        order::lemma_ascending(cpus@);
        list_laws::law_taskset_reads_a_list_back(cpus@);
    }
    list_rising(&order::ascend(cpus))
}

/// A list of cpus that rise already.
fn list_rising(cpus: &Vec<usize>) -> (s: String)
    requires
        order::rising(cpus@),
    ensures
        s@ == text::joined(
            spans(cpus@).map_values(|span: Span| span_text(span)),
            seq![','],
        ),
{
    let mut parts: Vec<String> = Vec::new();
    let ghost mut said: Seq<Span> = Seq::empty();
    let mut at: usize = 0;
    assert(cpus@.skip(0) == cpus@);
    assert(said + spans(cpus@) == spans(cpus@));
    while at < cpus.len()
        invariant
            at <= cpus@.len(),
            order::rising(cpus@),
            said + spans(cpus@.skip(at as int)) == spans(cpus@),
            text::texts(parts@) == said.map_values(|span: Span| span_text(span)),
        decreases cpus@.len() - at,
    {
        let ghost rest = cpus@.skip(at as int);
        let first: usize = cpus[at];
        let step: usize = if at + 1 < cpus.len() {
            cpus[at + 1] - first
        } else {
            0
        };
        let n: usize = if step > 0 {
            measure_run(cpus, at, step)
        } else {
            1
        };
        proof {
            assert(rest[0] == first);
            if rest.len() > 1 {
                assert(rest[1] == cpus@[at + 1]);
            }
            lemma_run_length(rest, step as int);
            assert(rest[n - 1] == cpus@[at + n - 1]);
        }
        let mut part = text::write_decimal(first as u128);
        let mut taken: usize = 1;
        if step == 1 && n >= 2 {
            part.push('-');
            text::push_decimal(&mut part, cpus[at + n - 1] as u128);
            taken = n;
        } else if n >= 3 {
            part.push('-');
            text::push_decimal(&mut part, cpus[at + n - 1] as u128);
            part.push(':');
            text::push_decimal(&mut part, step as u128);
            taken = n;
        }
        proof {
            let (m, span) = first_span(rest);
            assert(m == taken);
            assert(part@ == span_text(span));
            assert(spans(rest) == seq![span] + spans(rest.skip(m as int)));
            assert(rest.skip(m as int) == cpus@.skip(at + taken));
            assert(said + spans(rest) == said.push(span) + spans(cpus@.skip(at + taken)));
            assert(text::texts(parts@.push(part)) == text::texts(parts@).push(part@));
            assert(said.push(span).map_values(|span: Span| span_text(span)) == said.map_values(
                |span: Span| span_text(span),
            ).push(span_text(span)));
            said = said.push(span);
        }
        parts.push(part);
        at = at + taken;
    }
    assert(spans(cpus@.skip(at as int)) == Seq::<Span>::empty());
    assert(said == spans(cpus@));
    proof {
        reveal_strlit(",");
        assert(","@ == seq![',']);
    }
    text::join(&parts, ",")
}

/// How wide the list for `cores` cpus comes out if they are low-numbered and
/// evenly spaced: `0`, `0,2`, and a run such as `0-10:2` from three on.
//
// the low guess: a higher cpu or a ragged list widens the
// column past this once the cpus are known
pub open spec fn width_for(cores: nat) -> nat {
    if cores == 0 {
        0
    } else if cores == 1 {
        1
    } else if cores == 2 {
        3
    } else {
        6
    }
}

/// How wide the list for `cores` cpus comes out if they are low-numbered and
/// evenly spaced: `0`, `0,2`, and a run such as `0-10:2` from three on.
pub fn list_width(cores: usize) -> (n: usize)
    ensures
        n == width_for(cores as nat),
{
    match cores {
        0 => 0,
        1 => 1,
        2 => 3,
        _ => 6,
    }
}

/// Every number from `lo` to `hi` at the end of `out`.
fn push_counted(out: &mut Vec<usize>, lo: usize, hi: usize)
    ensures
        final(out)@ == old(out)@ + counted(lo, hi),
{
    if lo > hi {
        assert(out@ == old(out)@ + counted(lo, hi));
        return;
    }
    let mut x: usize = lo;
    while x < hi
        invariant
            lo <= x <= hi,
            out@ == old(out)@ + Seq::new((x - lo) as nat, |i: int| (lo + i) as usize),
        decreases hi - x,
    {
        out.push(x);
        x = x + 1;
        assert(out@ == old(out)@ + Seq::new((x - lo) as nat, |i: int| (lo + i) as usize));
    }
    out.push(hi);
    assert(out@ == old(out)@ + counted(lo, hi));
}

/// What one part of a kernel cpulist names, at the end of `out`.
fn push_part(out: &mut Vec<usize>, part: &Vec<char>)
    ensures
        final(out)@ == old(out)@ + part_cpus(part@),
{
    let dash: usize = text::position(part.as_slice(), 0, '-');
    assert(part@.skip(0) == part@);
    if dash < part.len() {
        let lo = text::slice(part.as_slice(), 0, dash);
        let hi = text::slice(part.as_slice(), dash + 1, part.len());
        assert(lo@ == part@.take(dash as int));
        assert(hi@ == part@.skip(dash + 1));
        match (text::parse_usize(lo.as_slice()), text::parse_usize(hi.as_slice())) {
            (Some(lo), Some(hi)) => push_counted(out, lo, hi),
            _ => {},
        }
    } else {
        match text::parse_usize(part.as_slice()) {
            Some(n) => out.push(n),
            None => {},
        }
    }
    assert(out@ == old(out)@ + part_cpus(part@));
}

/// A kernel cpulist: `0-1`, `16`, `0-3,8-11`.
pub fn parse_list(s: &str) -> (out: Vec<usize>)
    ensures
        out@ == list_cpus(s@),
{
    let all = text::chars(s);
    let v = text::trim(all.as_slice());
    let mut out: Vec<usize> = Vec::new();
    let mut at: usize = 0;
    assert(v@.skip(0) == v@);
    loop
        invariant_except_break
            at <= v@.len(),
            out@ + parts_cpus(v@.skip(at as int)) == parts_cpus(v@),
        ensures
            out@ == parts_cpus(v@),
        decreases v@.len() - at,
    {
        let comma: usize = text::position(v.as_slice(), at, ',');
        let part = text::slice(v.as_slice(), at, comma);
        let ghost rest = v@.skip(at as int);
        let ghost was = out@;
        push_part(&mut out, &part);
        if comma == v.len() {
            assert(part@ == rest);
            break;
        }
        proof {
            assert(part@ == rest.take(comma - at));
            assert(rest.skip(comma - at + 1) == v@.skip(comma + 1));
            assert(was + (part_cpus(part@) + parts_cpus(v@.skip(comma + 1))) == out@ + parts_cpus(
                v@.skip(comma + 1),
            ));
        }
        at = comma + 1;
    }
    out
}

} // verus!
