//! What a written cpu list says, and what reading it gives back.

use vstd::prelude::*;

use crate::cpu::list;
use crate::cpu::list::Span;
use crate::order;
use crate::text;

verus! {

/// A list names exactly the cpus it was given, in order and each once.
pub proof fn law_list_says_every_cpu(cpus: Seq<usize>)
    ensures
        list::spans_cpus(list::spans(order::ascending(cpus))) == order::ascending(cpus),
{
    order::lemma_ascending(cpus);
    lemma_spans_say(order::ascending(cpus));
}

proof fn lemma_spans_say(cpus: Seq<usize>)
    requires
        order::rising(cpus),
    ensures
        list::spans_cpus(list::spans(cpus)) == cpus,
    decreases cpus.len(),
{
    if cpus.len() > 0 {
        let step = if cpus.len() > 1 {
            cpus[1] - cpus[0]
        } else {
            0
        };
        let (n, span) = list::first_span(cpus);
        list::lemma_run_length(cpus, step);
        let rest = cpus.skip(n as int);
        assert(order::rising(rest));
        lemma_spans_say(rest);
        let all = list::spans(cpus);
        assert(all == seq![span] + list::spans(rest));
        assert(all[0] == span);
        assert(all.skip(1) == list::spans(rest));
        let front = cpus.take(n as int);
        assert(cpus == front + rest);
        assert(list::span_cpus(span) == front) by {
            match span {
                Span::One(a) => {},
                Span::Range(a, b) => {
                    assert(b == a + (n - 1) * 1);
                },
                Span::Stride(a, b, s) => {
                    assert(s == step);
                    assert(b - a == (n - 1) * step);
                    assert(((n - 1) * step) / step == n - 1) by {
                        vstd::arithmetic::div_mod::lemma_div_multiples_vanish(n - 1, step);
                        assert((n - 1) * step == step * (n - 1)) by (nonlinear_arith);
                    }
                    let said = list::span_cpus(span);
                    assert(said.len() == n);
                    assert forall|i: int| 0 <= i < n implies said[i] == front[i] by {
                        assert(cpus[i] == cpus[0] + i * step);
                    }
                },
            }
        }
    }
}

/// What a span of a list is made of: digits, a dash between two numbers, and a
/// colon in front of a step.
spec fn plain(s: Seq<char>) -> bool {
    &&& s.len() > 0
    &&& forall|i: int| 0 <= i < s.len() ==> text::is_digit(#[trigger] s[i]) || s[i] == '-'
}

/// A number in decimal is digits, and they are the number.
pub proof fn lemma_decimal_reads_back(n: nat)
    ensures
        text::decimal(n).len() > 0,
        forall|i: int|
            0 <= i < text::decimal(n).len() ==> text::is_digit(#[trigger] text::decimal(n)[i]),
        text::value(text::decimal(n)) == n,
    decreases n,
{
    let d = text::decimal(n);
    if n < 10 {
        assert(d.drop_last() == Seq::<char>::empty());
        assert(text::value(d.drop_last()) == 0);
    } else {
        lemma_decimal_reads_back(n / 10);
        assert(d.drop_last() == text::decimal(n / 10));
        assert(n == (n / 10) * 10 + n % 10);
    }
}

/// A number in decimal reads back as that number.
pub proof fn lemma_number_reads_back(n: usize)
    ensures
        text::number(text::decimal(n as nat)) == Some(n),
{
    let d = text::decimal(n as nat);
    lemma_decimal_reads_back(n as nat);
    assert(text::is_digit(d[0]));
    assert(text::unsigned(d) == d);
}

proof fn lemma_span_reads_back(span: Span)
    requires
        !(span is Stride),
    ensures
        list::part_cpus(list::span_text(span)) == list::span_cpus(span),
        plain(list::span_text(span)),
{
    let s = list::span_text(span);
    match span {
        Span::One(a) => {
            lemma_number_reads_back(a);
            lemma_decimal_reads_back(a as nat);
            text::lemma_found(s, '-', s.len());
        },
        Span::Range(a, b) => {
            lemma_number_reads_back(a);
            lemma_number_reads_back(b);
            lemma_decimal_reads_back(a as nat);
            lemma_decimal_reads_back(b as nat);
            let x = text::decimal(a as nat);
            let y = text::decimal(b as nat);
            assert forall|i: int| 0 <= i < s.len() implies text::is_digit(#[trigger] s[i]) || s[i]
                == '-' by {
                if i < x.len() {
                    assert(s[i] == x[i]);
                } else if i > x.len() {
                    assert(s[i] == y[i - x.len() - 1]);
                }
            }
            assert forall|i: int| 0 <= i < x.len() implies s[i] != '-' by {
                assert(s[i] == x[i]);
            }
            assert(s[x.len() as int] == '-');
            text::lemma_found(s, '-', x.len());
            assert(s.take(x.len() as int) == x);
            assert(s.skip(x.len() as int + 1) == y);
        },
        Span::Stride(a, b, c) => {},
    }
}

/// What is joined starts with its first part.
pub proof fn lemma_joined_front(parts: Seq<Seq<char>>, sep: Seq<char>)
    requires
        parts.len() > 1,
    ensures
        text::joined(parts, sep) == parts[0] + sep + text::joined(parts.skip(1), sep),
    decreases parts.len(),
{
    let init = parts.drop_last();
    if parts.len() == 2 {
        assert(text::joined(init, sep) == parts[0]);
        assert(parts.skip(1).len() == 1);
        assert(text::joined(parts.skip(1), sep) == parts[1]);
    } else {
        lemma_joined_front(init, sep);
        assert(init.skip(1) == parts.skip(1).drop_last());
        let tail = text::joined(init.skip(1), sep);
        assert(text::joined(parts.skip(1), sep) == tail + sep + parts.last());
        assert((parts[0] + sep + tail) + sep + parts.last() == parts[0] + sep + (tail + sep
            + parts.last()));
    }
}

proof fn lemma_joined_reads_back(some: Seq<Span>)
    requires
        some.len() > 0,
        forall|i: int| 0 <= i < some.len() ==> !((#[trigger] some[i]) is Stride),
    ensures
        ({
            let s = text::joined(some.map_values(|span: Span| list::span_text(span)), seq![',']);
            &&& list::parts_cpus(s) == list::spans_cpus(some)
            &&& s.len() > 0
            &&& forall|i: int|
                0 <= i < s.len() ==> text::is_digit(#[trigger] s[i]) || s[i] == '-' || s[i] == ','
        }),
    decreases some.len(),
{
    let parts = some.map_values(|span: Span| list::span_text(span));
    let s = text::joined(parts, seq![',']);
    lemma_span_reads_back(some[0]);
    let head = parts[0];
    assert(head == list::span_text(some[0]));
    assert forall|i: int| 0 <= i < head.len() implies head[i] != ',' by {
        assert(text::is_digit(head[i]) || head[i] == '-');
    }
    if some.len() == 1 {
        assert(s == head);
        text::lemma_found(s, ',', s.len());
        assert(list::spans_cpus(some.skip(1)) == Seq::<usize>::empty());
        assert(list::spans_cpus(some) == list::span_cpus(some[0]));
    } else {
        let rest = some.skip(1);
        assert forall|i: int| 0 <= i < rest.len() implies !((#[trigger] rest[i]) is Stride) by {
            assert(rest[i] == some[i + 1]);
        }
        lemma_joined_reads_back(rest);
        lemma_joined_front(parts, seq![',']);
        assert(parts.skip(1) == rest.map_values(|span: Span| list::span_text(span)));
        let t = text::joined(parts.skip(1), seq![',']);
        assert(s == head + seq![','] + t);
        assert forall|i: int| 0 <= i < head.len() implies s[i] != ',' by {
            assert(s[i] == head[i]);
        }
        assert(s[head.len() as int] == ',');
        text::lemma_found(s, ',', head.len());
        assert(s.take(head.len() as int) == head);
        assert(s.skip(head.len() as int + 1) == t);
        assert forall|i: int| 0 <= i < s.len() implies text::is_digit(#[trigger] s[i]) || s[i]
            == '-' || s[i] == ',' by {
            if i < head.len() {
                assert(s[i] == head[i]);
            } else if i > head.len() {
                assert(s[i] == t[i - head.len() - 1]);
            }
        }
    }
}

/// A list with nothing in it but cpus and ranges of them is one the kernel
/// could have written, and reads back as the cpus it was written for.
pub proof fn law_list_reads_back(cpus: Seq<usize>)
    requires
        forall|i: int|
            0 <= i < list::spans(order::ascending(cpus)).len() ==> !((
            #[trigger] list::spans(order::ascending(cpus))[i]) is Stride),
    ensures
        list::list_cpus(list::list_text(cpus)) == order::ascending(cpus),
{
    law_list_says_every_cpu(cpus);
    let some = list::spans(order::ascending(cpus));
    let s = list::list_text(cpus);
    if some.len() == 0 {
        assert(s == Seq::<char>::empty());
        assert(text::trimmed(s) == s);
        assert(list::list_cpus(s) == Seq::<usize>::empty());
    } else {
        lemma_joined_reads_back(some);
        assert(text::is_digit(s[0]) || s[0] == '-' || s[0] == ',');
        assert(text::is_digit(s[s.len() - 1]) || s[s.len() - 1] == '-' || s[s.len() - 1] == ',');
        assert(text::trimmed_start(s) == s);
        assert(text::trimmed(s) == s);
    }
}

/// The numbers from `lo` to `hi`, `step` apart, starting at `lo`.
pub open spec fn stepped(lo: usize, hi: usize, step: usize) -> Seq<usize> {
    if lo <= hi {
        Seq::new(((hi - lo) / step as int + 1) as nat, |i: int| (lo + i * step) as usize)
    } else {
        Seq::empty()
    }
}

/// What `taskset -c` takes one part of a list to name: `n` is that cpu, `a-b` is
/// every cpu from one to the other, and `a-b:s` is each of those that a step of
/// `s` from the first comes to. `None` for anything else.
pub open spec fn taskset_part(part: Seq<char>) -> Option<Seq<usize>> {
    let dash = text::find(part, '-') as int;
    if dash == part.len() {
        match text::number(part) {
            Some(n) => Some(seq![n]),
            None => None,
        }
    } else {
        let tail = part.skip(dash + 1);
        let colon = text::find(tail, ':') as int;
        let step = if colon == tail.len() {
            Some(1usize)
        } else {
            text::number(tail.skip(colon + 1))
        };
        match (text::number(part.take(dash)), text::number(tail.take(colon)), step) {
            (Some(lo), Some(hi), Some(step)) => if step > 0 {
                Some(stepped(lo, hi, step))
            } else {
                None
            },
            _ => None,
        }
    }
}

/// What `taskset -c` takes the parts of a list to name, commas between them.
pub open spec fn taskset_parts(s: Seq<char>) -> Option<Seq<usize>>
    decreases s.len(),
{
    let comma = text::find(s, ',') as int;
    if comma < s.len() {
        match (taskset_part(s.take(comma)), taskset_parts(s.skip(comma + 1))) {
            (Some(first), Some(rest)) => Some(first + rest),
            _ => None,
        }
    } else {
        taskset_part(s)
    }
}

/// What `taskset -c` takes a list to name, nothing for an empty one.
pub open spec fn taskset(s: Seq<char>) -> Option<Seq<usize>> {
    if s.len() == 0 {
        Some(Seq::empty())
    } else {
        taskset_parts(s)
    }
}

/// Whether `s` is a list that `taskset -c` takes for exactly `cpus`, lowest
/// first and each once.
pub open spec fn names(s: Seq<char>, cpus: Seq<usize>) -> bool {
    match taskset(s) {
        Some(read) => {
            &&& order::rising(read)
            &&& forall|cpu: usize| #[trigger] read.contains(cpu) <==> cpus.contains(cpu)
        },
        None => false,
    }
}

/// Whether a span runs forwards, by a step that gets somewhere.
spec fn forward(span: Span) -> bool {
    match span {
        Span::One(_) => true,
        Span::Range(a, b) => a <= b,
        Span::Stride(a, b, s) => a <= b && s > 0,
    }
}

proof fn lemma_spans_forward(cpus: Seq<usize>)
    requires
        order::rising(cpus),
    ensures
        forall|i: int| 0 <= i < list::spans(cpus).len() ==> forward(#[trigger] list::spans(cpus)[i]),
        cpus.len() > 0 ==> list::spans(cpus).len() > 0,
    decreases cpus.len(),
{
    if cpus.len() > 0 {
        let step = if cpus.len() > 1 {
            cpus[1] - cpus[0]
        } else {
            0
        };
        let (n, span) = list::first_span(cpus);
        list::lemma_run_length(cpus, step);
        let rest = cpus.skip(n as int);
        assert(order::rising(rest));
        lemma_spans_forward(rest);
        let all = list::spans(cpus);
        assert(all == seq![span] + list::spans(rest));
        assert(n > 1 ==> cpus[0] < cpus[n - 1]);
        assert forall|i: int| 0 <= i < all.len() implies forward(#[trigger] all[i]) by {
            if i > 0 {
                assert(all[i] == list::spans(rest)[i - 1]);
            }
        }
    }
}

proof fn lemma_taskset_span(span: Span)
    requires
        forward(span),
    ensures
        taskset_part(list::span_text(span)) == Some(list::span_cpus(span)),
        list::span_text(span).len() > 0,
        !list::span_text(span).contains(','),
{
    let s = list::span_text(span);
    match span {
        Span::One(a) => {
            lemma_number_reads_back(a);
            lemma_decimal_reads_back(a as nat);
            text::lemma_found(s, '-', s.len());
        },
        Span::Range(a, b) => {
            lemma_number_reads_back(a);
            lemma_number_reads_back(b);
            lemma_decimal_reads_back(a as nat);
            lemma_decimal_reads_back(b as nat);
            let x = text::decimal(a as nat);
            let y = text::decimal(b as nat);
            assert forall|i: int| 0 <= i < x.len() implies s[i] != '-' by {
                assert(s[i] == x[i]);
            }
            assert(s[x.len() as int] == '-');
            text::lemma_found(s, '-', x.len());
            assert(s.take(x.len() as int) == x);
            assert(s.skip(x.len() as int + 1) == y);
            assert forall|i: int| 0 <= i < y.len() implies y[i] != ':' by {
                assert(text::is_digit(y[i]));
            }
            text::lemma_found(y, ':', y.len());
            assert(y.take(y.len() as int) == y);
            assert(stepped(a, b, 1) == list::counted(a, b));
            assert forall|i: int| 0 <= i < s.len() implies s[i] != ',' by {
                if i < x.len() {
                    assert(s[i] == x[i]);
                } else if i > x.len() {
                    assert(s[i] == y[i - x.len() - 1]);
                }
            }
        },
        Span::Stride(a, b, c) => {
            lemma_number_reads_back(a);
            lemma_number_reads_back(b);
            lemma_number_reads_back(c);
            lemma_decimal_reads_back(a as nat);
            lemma_decimal_reads_back(b as nat);
            lemma_decimal_reads_back(c as nat);
            let x = text::decimal(a as nat);
            let y = text::decimal(b as nat);
            let z = text::decimal(c as nat);
            let tail = y + seq![':'] + z;
            assert(s == x + seq!['-'] + tail);
            assert forall|i: int| 0 <= i < x.len() implies s[i] != '-' by {
                assert(s[i] == x[i]);
            }
            assert(s[x.len() as int] == '-');
            text::lemma_found(s, '-', x.len());
            assert(s.take(x.len() as int) == x);
            assert(s.skip(x.len() as int + 1) == tail);
            assert forall|i: int| 0 <= i < y.len() implies tail[i] != ':' by {
                assert(tail[i] == y[i]);
                assert(text::is_digit(y[i]));
            }
            assert(tail[y.len() as int] == ':');
            text::lemma_found(tail, ':', y.len());
            assert(tail.take(y.len() as int) == y);
            assert(tail.skip(y.len() as int + 1) == z);
            assert(stepped(a, b, c) == list::span_cpus(span));
            assert forall|i: int| 0 <= i < s.len() implies s[i] != ',' by {
                if i < x.len() {
                    assert(s[i] == x[i]);
                } else if i > x.len() {
                    let k = i - x.len() - 1;
                    assert(s[i] == tail[k]);
                    if k < y.len() {
                        assert(tail[k] == y[k]);
                    } else if k > y.len() {
                        assert(tail[k] == z[k - y.len() - 1]);
                    }
                }
            }
        },
    }
}

proof fn lemma_taskset_joined(some: Seq<Span>)
    requires
        some.len() > 0,
        forall|i: int| 0 <= i < some.len() ==> forward(#[trigger] some[i]),
    ensures
        ({
            let s = text::joined(some.map_values(|span: Span| list::span_text(span)), seq![',']);
            &&& s.len() > 0
            &&& taskset_parts(s) == Some(list::spans_cpus(some))
        }),
    decreases some.len(),
{
    let parts = some.map_values(|span: Span| list::span_text(span));
    let s = text::joined(parts, seq![',']);
    lemma_taskset_span(some[0]);
    let head = parts[0];
    assert(head == list::span_text(some[0]));
    assert forall|i: int| 0 <= i < head.len() implies head[i] != ',' by {
        assert(head.contains(head[i]));
    }
    if some.len() == 1 {
        assert(s == head);
        text::lemma_found(s, ',', s.len());
        assert(list::spans_cpus(some.skip(1)) == Seq::<usize>::empty());
        assert(list::spans_cpus(some) == list::span_cpus(some[0]));
    } else {
        let rest = some.skip(1);
        assert forall|i: int| 0 <= i < rest.len() implies forward(#[trigger] rest[i]) by {
            assert(rest[i] == some[i + 1]);
        }
        lemma_taskset_joined(rest);
        lemma_joined_front(parts, seq![',']);
        assert(parts.skip(1) == rest.map_values(|span: Span| list::span_text(span)));
        let t = text::joined(parts.skip(1), seq![',']);
        assert(s == head + seq![','] + t);
        assert forall|i: int| 0 <= i < head.len() implies s[i] != ',' by {
            assert(s[i] == head[i]);
        }
        assert(s[head.len() as int] == ',');
        text::lemma_found(s, ',', head.len());
        assert(s.take(head.len() as int) == head);
        assert(s.skip(head.len() as int + 1) == t);
    }
}

/// A written list reads back for every cpus there are, strides included: what
/// `taskset -c` takes it for is exactly the cpus it was written for, lowest
/// first and each once.
pub proof fn law_taskset_reads_a_list_back(cpus: Seq<usize>)
    ensures
        taskset(list::list_text(cpus)) == Some(order::ascending(cpus)),
        names(list::list_text(cpus), cpus),
{
    let up = order::ascending(cpus);
    order::lemma_ascending(cpus);
    law_list_says_every_cpu(cpus);
    lemma_spans_forward(up);
    let some = list::spans(up);
    if up.len() == 0 {
        assert(up == Seq::<usize>::empty());
        assert(some.len() == 0);
        assert(list::list_text(cpus) == Seq::<char>::empty());
    } else {
        lemma_taskset_joined(some);
    }
}

/// A list is no longer than it has to be said: cpus in a row are one part as far
/// as they go, three or more a step apart are one too, and a cpu is only on its
/// own where neither is so.
pub proof fn law_a_list_says_runs_in_one_go(cpus: Seq<usize>)
    requires
        order::rising(cpus),
        cpus.len() > 0,
    ensures
        ({
            let (n, span) = list::first_span(cpus);
            let row = cpus.len() > 1 && cpus[1] - cpus[0] == 1;
            let steps = cpus.len() > 2 && cpus[1] - cpus[0] == cpus[2] - cpus[1];
            &&& 1 <= n <= cpus.len()
            &&& row ==> span is Range && n >= 2 && (n < cpus.len() ==> cpus[n as int] - cpus[n - 1]
                != 1)
            &&& !row && steps ==> span is Stride && n >= 3 && (n < cpus.len() ==> cpus[n as int]
                - cpus[n - 1] != cpus[1] - cpus[0])
            &&& !row && !steps ==> span == Span::One(cpus[0]) && n == 1
            &&& list::spans(cpus) == seq![span] + list::spans(cpus.skip(n as int))
        }),
{
    let step = if cpus.len() > 1 {
        cpus[1] - cpus[0]
    } else {
        0
    };
    list::lemma_run_length(cpus, step);
    let t = cpus.skip(1);
    if cpus.len() > 1 {
        assert(list::run_length(cpus, step) == 1 + list::run_length(t, step));
        if cpus.len() > 2 && cpus[2] - cpus[1] == step {
            assert(t[0] == cpus[1] && t[1] == cpus[2]);
            list::lemma_run_length(t.skip(1), step);
            assert(list::run_length(t, step) >= 2);
        } else if cpus.len() > 2 {
            assert(t[0] == cpus[1] && t[1] == cpus[2]);
            assert(list::run_length(t, step) == 1);
        }
    }
}

/// The parts of a kernel cpulist are read each on its own, whatever is on the
/// other side of a comma: one that cannot be read takes nothing from the rest.
pub proof fn law_parts_are_read_apart(a: Seq<char>, b: Seq<char>)
    ensures
        list::parts_cpus(a + seq![','] + b) == list::parts_cpus(a) + list::parts_cpus(b),
    decreases a.len(),
{
    let s = a + seq![','] + b;
    let k = text::find(a, ',');
    text::lemma_find(a, ',');
    assert forall|i: int| 0 <= i < k implies s[i] != ',' by {
        assert(s[i] == a[i]);
    }
    assert(s[k as int] == ',') by {
        if k < a.len() {
            assert(s[k as int] == a[k as int]);
        }
    }
    text::lemma_found(s, ',', k);
    if k < a.len() {
        let rest = a.skip(k as int + 1);
        law_parts_are_read_apart(rest, b);
        assert(s.take(k as int) == a.take(k as int));
        assert(s.skip(k as int + 1) == rest + seq![','] + b);
        let first = list::part_cpus(a.take(k as int));
        assert(first + (list::parts_cpus(rest) + list::parts_cpus(b)) == first + list::parts_cpus(
            rest,
        ) + list::parts_cpus(b));
    } else {
        assert(s.take(k as int) == a);
        assert(s.skip(k as int + 1) == b);
    }
}

/// A part of a kernel cpulist that is a number names that cpu, one that is two
/// with a dash between them names every cpu from the first to the second, both
/// counted, and one with anything else in it names none.
pub proof fn law_what_a_part_names(lo: usize, hi: usize, part: Seq<char>)
    ensures
        list::part_cpus(text::decimal(lo as nat)) == seq![lo],
        ({
            let read = list::part_cpus(
                text::decimal(lo as nat) + seq!['-'] + text::decimal(hi as nat),
            );
            &&& order::rising(read)
            &&& forall|cpu: usize| #[trigger] read.contains(cpu) <==> lo <= cpu <= hi
        }),
        (exists|i: int|
            0 <= i < part.len() && !text::is_digit(#[trigger] part[i]) && part[i] != '-' && part[i]
                != '+') ==> list::part_cpus(part).len() == 0,
        part.len() == 0 ==> list::part_cpus(part).len() == 0,
{
    lemma_span_reads_back(Span::One(lo));
    lemma_span_reads_back(Span::Range(lo, hi));
    let read = list::counted(lo, hi);
    assert forall|cpu: usize| #[trigger] read.contains(cpu) <==> lo <= cpu <= hi by {
        if lo <= cpu <= hi {
            assert(read[cpu - lo] == cpu);
        }
    }
    if exists|i: int|
        0 <= i < part.len() && !text::is_digit(#[trigger] part[i]) && part[i] != '-' && part[i]
            != '+' {
        let i = choose|i: int|
            0 <= i < part.len() && !text::is_digit(#[trigger] part[i]) && part[i] != '-' && part[i]
                != '+';
        let dash = text::find(part, '-') as int;
        text::lemma_find(part, '-');
        if dash < part.len() {
            let x = part.take(dash);
            let y = part.skip(dash + 1);
            if i < dash {
                lemma_not_a_number(x, i);
            } else {
                assert(y[i - dash - 1] == part[i]);
                lemma_not_a_number(y, i - dash - 1);
            }
        } else {
            lemma_not_a_number(part, i);
        }
    }
}

/// A part of a kernel cpulist with a dash in it names every cpu from the number
/// in front of the first dash to the one behind it, and none unless both are
/// numbers. One with no dash names the number it is, if it is one. White space
/// around the whole list is nothing.
pub proof fn law_a_dash_makes_a_range(x: Seq<char>, y: Seq<char>, s: Seq<char>)
    requires
        !x.contains('-'),
    ensures
        ({
            let read = list::part_cpus(x + seq!['-'] + y);
            match (text::number(x), text::number(y)) {
                (Some(lo), Some(hi)) => {
                    &&& order::rising(read)
                    &&& forall|cpu: usize| #[trigger] read.contains(cpu) <==> lo <= cpu <= hi
                },
                _ => read.len() == 0,
            }
        }),
        match text::number(x) {
            Some(n) => list::part_cpus(x) == seq![n],
            None => list::part_cpus(x).len() == 0,
        },
        !s.contains(',') ==> list::parts_cpus(s) == list::part_cpus(s),
        list::list_cpus(s) == list::parts_cpus(text::trimmed(s)),
{
    let part = x + seq!['-'] + y;
    assert forall|i: int| 0 <= i < x.len() implies x[i] != '-' by {
        assert(x.contains(x[i]));
    }
    assert forall|i: int| 0 <= i < x.len() implies part[i] != '-' by {
        assert(part[i] == x[i]);
    }
    assert(part[x.len() as int] == '-');
    text::lemma_found(part, '-', x.len());
    text::lemma_found(x, '-', x.len());
    assert(part.take(x.len() as int) == x);
    assert(part.skip(x.len() as int + 1) == y);
    if let (Some(lo), Some(hi)) = (text::number(x), text::number(y)) {
        let read = list::counted(lo, hi);
        assert forall|cpu: usize| #[trigger] read.contains(cpu) <==> lo <= cpu <= hi by {
            if lo <= cpu <= hi {
                assert(read[cpu - lo] == cpu);
            }
        }
    }
    if !s.contains(',') {
        assert forall|i: int| 0 <= i < s.len() implies s[i] != ',' by {
            assert(s.contains(s[i]));
        }
        text::lemma_found(s, ',', s.len());
    }
}

proof fn lemma_not_a_number(s: Seq<char>, i: int)
    requires
        0 <= i < s.len(),
        !text::is_digit(s[i]),
        s[i] != '+',
    ensures
        text::number(s) is None,
{
    let d = text::unsigned(s);
    if s[0] == '+' {
        assert(d[i - 1] == s[i]);
    } else {
        assert(d[i] == s[i]);
    }
}

} // verus!
