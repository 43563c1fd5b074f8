//! What something cost, as cells.

use vstd::prelude::*;

use crate::cpu::list;
use crate::double;
use crate::double::Seconds;
use crate::fmt;
use crate::item::Item;
use crate::status::{Status, Timing};
use crate::step::Step;
use crate::table::layout;
use crate::table::layout::Cell;
use crate::text;

verus! {

/// Cpu time: exactly, in nanoseconds, and added up as doubles of seconds, which
/// is how it is written.
pub struct Spent {
    pub ns: u128,
    pub seconds: Seconds,
}

impl View for Spent {
    type V = (nat, nat);

    /// Its nanoseconds, and its ticks as doubles add up.
    open spec fn view(&self) -> (nat, nat) {
        (self.ns as nat, self.seconds@)
    }
}

impl Spent {
    /// Whether it can be written and a percentage taken of it.
    pub open spec fn in_range(&self) -> bool {
        self.ns <= 0x100_0000_0000_0000_0000_0000_0000_0000 && self.seconds.well_formed()
    }

    /// No time at all.
    fn none() -> (r: Spent)
        ensures
            r@ == (0nat, 0nat),
            r.in_range(),
    {
        Spent { ns: 0, seconds: Seconds::zero() }
    }

    /// The time of one item.
    fn of(ns: u64) -> (r: Spent)
        ensures
            r@ == (ns as nat, double::ticks(ns as nat)),
            r.in_range(),
    {
        Spent { ns: ns as u128, seconds: Seconds::of(ns) }
    }
}

/// What something cost and how it went. A `None` prints as `-`.
pub struct Cost {
    pub wall_ns: Option<u64>,
    pub user: Option<Spent>,
    pub sys: Option<Spent>,
    pub max_rss_kb: Option<i64>,
    pub exit: Option<i32>,
    pub status: Option<&'static str>,
}

/// The share of the wall clock spent on a cpu, in whole percent, cut off rather
/// than rounded.
pub open spec fn percent(cpu_ns: nat, wall_ns: Option<nat>) -> Option<Seq<char>> {
    match wall_ns {
        Some(wall) => if wall == 0 {
            None
        } else {
            Some(text::decimal(cpu_ns * 100 / wall) + "%"@)
        },
        None => None,
    }
}

/// `time`'s `%P`: cpu time over wall clock, so four cores busy throughout
/// read 400%. `None` when there is no wall clock to divide by.
pub fn cpu_pct(cpu_ns: u128, wall_ns: Option<u64>) -> (r: Option<String>)
    requires
        cpu_ns * 100 <= u128::MAX,
    ensures
        match percent(
            cpu_ns as nat,
            match wall_ns {
                Some(wall) => Some(wall as nat),
                None => None,
            },
        ) {
            Some(words) => r is Some && r->0@ == words,
            None => r is None,
        },
{
    match wall_ns {
        // `time` writes `?%` here; `None` prints as `-` like
        // any other missing number
        None => None,
        Some(wall) => if wall == 0 {
            None
        } else {
            // truncated rather than rounded to match `time`,
            // which divides two integers
            let n: u128 = cpu_ns * 100 / wall as u128;
            let mut s = text::write_decimal(n);
            s.append("%");
            Some(s)
        },
    }
}

/// The cell that reads `words`.
pub open spec fn plain(words: Option<Seq<char>>) -> (Option<Seq<char>>, bool) {
    (words, false)
}

/// A time as it is written in the table.
pub open spec fn seconds_of(ns: Option<nat>) -> Option<Seq<char>> {
    match ns {
        Some(ns) => Some(fmt::seconds_text(ns)),
        None => None,
    }
}

/// Cpu time as it is written in the table.
pub open spec fn spent_of(spent: Option<(nat, nat)>) -> Option<Seq<char>> {
    match spent {
        Some(spent) => Some(double::text_of(spent.1)),
        None => None,
    }
}

/// A cost by what it is made of.
#[verifier::ext_equal]
pub struct Figures {
    pub wall: Option<nat>,
    pub user: Option<(nat, nat)>,
    pub sys: Option<(nat, nat)>,
    pub rss: Option<int>,
    pub exit: Option<int>,
    pub status: Option<Seq<char>>,
}

impl View for Cost {
    type V = Figures;

    open spec fn view(&self) -> Figures {
        Figures {
            wall: match self.wall_ns {
                Some(ns) => Some(ns as nat),
                None => None,
            },
            user: match self.user {
                Some(spent) => Some(spent@),
                None => None,
            },
            sys: match self.sys {
                Some(spent) => Some(spent@),
                None => None,
            },
            rss: match self.max_rss_kb {
                Some(kib) => Some(kib as int),
                None => None,
            },
            exit: match self.exit {
                Some(code) => Some(code as int),
                None => None,
            },
            status: match self.status {
                Some(word) => Some(word@),
                None => None,
            },
        }
    }
}

/// The share of the wall clock spent on a cpu, where both halves of the cpu
/// time are known.
pub open spec fn share(figures: Figures) -> Option<Seq<char>> {
    match (figures.user, figures.sys) {
        (Some(user), Some(sys)) => percent(user.0 + sys.0, figures.wall),
        _ => None,
    }
}

/// The cells of a cost: wall, user and sys time, cpu share, peak memory, exit
/// and status.
pub open spec fn cost_cells(figures: Figures) -> Seq<(Option<Seq<char>>, bool)> {
    seq![
        plain(seconds_of(figures.wall)),
        plain(spent_of(figures.user)),
        plain(spent_of(figures.sys)),
        plain(share(figures)),
        plain(
            match figures.rss {
                Some(kib) => Some(fmt::bytes_text(kib)),
                None => None,
            },
        ),
        plain(
            match figures.exit {
                Some(code) => Some(text::signed(code)),
                None => None,
            },
        ),
        plain(figures.status),
    ]
}

impl Cost {
    /// Whether the cpu time is one that can be written and that a percentage can
    /// be taken of.
    pub open spec fn in_range(&self) -> bool {
        &&& self.user matches Some(user) ==> user.in_range()
        &&& self.sys matches Some(sys) ==> sys.in_range()
    }

    /// Its cells: wall, user and sys time, cpu share, peak memory, exit and
    /// status.
    pub fn cells(&self) -> (v: Vec<Cell>)
        requires
            self.in_range(),
        ensures
            layout::row_text(v@) == cost_cells(self@),
    {
        let mut v: Vec<Cell> = Vec::new();
        v.push(
            match self.wall_ns {
                Some(ns) => Cell::of(fmt::seconds(ns)),
                None => Cell::missing(),
            },
        );
        v.push(
            match &self.user {
                Some(spent) => Cell::of(spent.seconds.write()),
                None => Cell::missing(),
            },
        );
        v.push(
            match &self.sys {
                Some(spent) => Cell::of(spent.seconds.write()),
                None => Cell::missing(),
            },
        );
        v.push(
            match (&self.user, &self.sys) {
                (Some(user), Some(sys)) => Cell::maybe(cpu_pct(user.ns + sys.ns, self.wall_ns)),
                _ => Cell::missing(),
            },
        );
        v.push(
            match self.max_rss_kb {
                Some(kib) => Cell::of(fmt::bytes(kib)),
                None => Cell::missing(),
            },
        );
        v.push(
            match self.exit {
                Some(code) => Cell::of(text::write_signed(code as i64)),
                None => Cell::missing(),
            },
        );
        v.push(
            match self.status {
                Some(word) => Cell::of(word.to_owned()),
                None => Cell::missing(),
            },
        );
        assert(layout::row_text(v@) == cost_cells(self@));
        v
    }
}

/// What a list of cpus or nodes reads in a cell.
pub open spec fn listing(numbers: Seq<usize>) -> Option<Seq<char>> {
    if numbers.len() == 0 {
        None
    } else {
        Some(list::list_text(numbers))
    }
}

/// A cpu or node list, or `-` for an empty one.
pub fn listed(numbers: &[usize]) -> (c: Cell)
    ensures
        c@ == plain(listing(numbers@)),
{
    // a command that asked for cpus and never held any
    // reads the same as one that asked for none
    if numbers.len() == 0 {
        Cell::missing()
    } else {
        Cell::of(list::list(numbers))
    }
}

/// The status column: whether it worked.
pub open spec fn word_for(status: Status) -> Seq<char> {
    match status {
        Status::NotRun => "-"@,
        Status::Skipped => "skip"@,
        Status::TimedOut(_) => "time"@,
        Status::Finished(t) => if t.exit == 0 {
            "ok"@
        } else {
            "fail"@
        },
        Status::Failed(_) => "fail"@,
    }
}

/// The status column: whether it worked. What the command reported is left
/// to the exit column.
pub fn status_word(status: &Status) -> (s: &'static str)
    ensures
        s@ == word_for(*status),
{
    match status {
        Status::NotRun => "-",
        Status::Skipped => "skip",
        Status::TimedOut(_) => "time",
        Status::Finished(t) => if t.ok() {
            "ok"
        } else {
            "fail"
        },
        Status::Failed(_) => "fail",
    }
}

/// What the first `n` items of a step cost, for those that ran.
pub open spec fn timings<F>(step: &Step<F>, n: nat) -> Seq<Timing>
    decreases n,
{
    if n == 0 {
        Seq::empty()
    } else {
        let front = timings(step, (n - 1) as nat);
        match step.holds(n - 1).outcome().cost() {
            Some(t) => front.push(t),
            None => front,
        }
    }
}

/// A total with one more item's time in it, unless either has none to count.
/// The nanoseconds add up exactly and the seconds as doubles do.
pub open spec fn with_item(sum: Option<(nat, nat)>, ns: Option<u64>) -> Option<(nat, nat)> {
    match (sum, ns) {
        (Some(sum), Some(ns)) => Some(
            (sum.0 + ns as nat, double::plus(sum.1, double::ticks(ns as nat))),
        ),
        _ => None,
    }
}

/// All of the user time of `ts`, unless one has none to count.
pub open spec fn user_total(ts: Seq<Timing>) -> Option<(nat, nat)>
    decreases ts.len(),
{
    if ts.len() == 0 {
        Some((0, 0))
    } else {
        with_item(user_total(ts.drop_last()), ts.last().user_ns)
    }
}

/// All of the system time of `ts`, unless one has none to count.
pub open spec fn sys_total(ts: Seq<Timing>) -> Option<(nat, nat)>
    decreases ts.len(),
{
    if ts.len() == 0 {
        Some((0, 0))
    } else {
        with_item(sys_total(ts.drop_last()), ts.last().sys_ns)
    }
}

/// The most memory that any of `ts` reached, of those that say.
pub open spec fn peak(ts: Seq<Timing>) -> Option<i64>
    decreases ts.len(),
{
    if ts.len() == 0 {
        None
    } else {
        match (peak(ts.drop_last()), ts.last().max_rss_kb) {
            (Some(a), Some(b)) => if b > a {
                Some(b)
            } else {
                Some(a)
            },
            (None, b) => b,
            (a, None) => a,
        }
    }
}

/// Whether a step holds no more than could ever be in memory at once.
pub open spec fn holdable<F>(step: &Step<F>) -> bool {
    step.size() <= 0x100_0000_0000_0000
}

/// What a step cost: its own wall clock, and the rest from the items of it that
/// ran. Exit and status are its items'.
pub open spec fn step_figures<F>(step: &Step<F>) -> Figures {
    let ts = timings(step, step.size());
    let ran = ts.len() > 0;
    Figures {
        wall: match step.elapsed_ns {
            Some(ns) => Some(ns as nat),
            None => None,
        },
        user: if ran {
            user_total(ts)
        } else {
            None
        },
        sys: if ran {
            sys_total(ts)
        } else {
            None
        },
        rss: match peak(ts) {
            Some(kib) => Some(kib as int),
            None => None,
        },
        exit: None,
        status: None,
    }
}

/// `sum` and `ns` together, unless one is missing.
fn and(sum: Option<Spent>, ns: Option<u64>) -> (r: Option<Spent>)
    requires
        sum matches Some(s) ==> s.in_range() && s.ns <= 0xff_ffff_ffff_ffff_ffff_ffff_ffff_ffff,
    ensures
        maybe(r) == with_item(maybe(sum), ns),
        r matches Some(s) ==> s.seconds.well_formed(),
{
    match (sum, ns) {
        (Some(s), Some(n)) => Some(
            Spent { ns: s.ns + n as u128, seconds: s.seconds.plus(&Seconds::of(n)) },
        ),
        _ => None,
    }
}

/// A time by what it is made of, if there is one.
pub open spec fn maybe(spent: Option<Spent>) -> Option<(nat, nat)> {
    match spent {
        Some(spent) => Some(spent@),
        None => None,
    }
}

/// What a step cost.
pub fn step_cost<F>(step: &Step<F>) -> (cost: Cost)
    requires
        holdable(step),
    ensures
        cost@ == step_figures(step),
        cost.in_range(),
{
    let items = step.items();
    let mut any = false;
    // summed cpu against measured wall shows how much a
    // batch ran in parallel: a step that ran four at once
    // reads about four times what any one of them did
    //
    // a closure has no cpu figure, and one missing leaves the
    // step without a total rather than with a partial one that
    // reads as its whole cost
    let mut user: Option<Spent> = Some(Spent::none());
    let mut sys: Option<Spent> = Some(Spent::none());
    // the largest any one process reached, not the most the
    // step held at once, which wait4 does not report. a
    // missing figure leaves a max correct, so it is skipped
    let mut rss: Option<i64> = None;
    let mut i: usize = 0;
    while i < items.len()
        invariant
            i <= items@.len(),
            holdable(step),
            items@ == Seq::new(step.size(), |k: int| step.holds(k)),
            any == (timings(step, i as nat).len() > 0),
            maybe(user) == user_total(timings(step, i as nat)),
            maybe(sys) == sys_total(timings(step, i as nat)),
            rss == peak(timings(step, i as nat)),
            user matches Some(sum) ==> sum.seconds.well_formed() && sum.ns <= i
                * 0xffff_ffff_ffff_ffff,
            sys matches Some(sum) ==> sum.seconds.well_formed() && sum.ns <= i
                * 0xffff_ffff_ffff_ffff,
        decreases items@.len() - i,
    {
        proof {
            assert(items@[i as int] == step.holds(i as int));
            let front = timings(step, i as nat);
            if let Some(t) = step.holds(i as int).outcome().cost() {
                assert(front.push(t).drop_last() == front);
            }
        }
        if let Some(t) = items[i].status().timing() {
            any = true;
            user = and(user, t.user_ns);
            sys = and(sys, t.sys_ns);
            rss = match (rss, t.max_rss_kb) {
                (Some(a), Some(b)) => if b > a {
                    Some(b)
                } else {
                    Some(a)
                },
                (None, b) => b,
                (a, None) => a,
            };
        }
        i = i + 1;
    }
    // exit, status and argv belong to commands; a count or a rollup here
    // would be a different quantity sharing a column
    let mut cost = Cost {
        wall_ns: step.wall_ns(),
        user: None,
        sys: None,
        max_rss_kb: None,
        exit: None,
        status: None,
    };
    if any {
        cost.user = user;
        cost.sys = sys;
        cost.max_rss_kb = rss;
    }
    cost
}

/// What one item cost.
pub open spec fn item_figures<F>(item: Item<'_, F>) -> Figures {
    let (wall, user, sys, rss) = match item.outcome().cost() {
        Some(t) => (Some(t.wall_ns as nat), t.user_ns, t.sys_ns, t.max_rss_kb),
        None => (None, None, None, None),
    };
    Figures {
        wall,
        user: match user {
            Some(ns) => Some((ns as nat, double::ticks(ns as nat))),
            None => None,
        },
        sys: match sys {
            Some(ns) => Some((ns as nat, double::ticks(ns as nat))),
            None => None,
        },
        rss: match rss {
            Some(kib) => Some(kib as int),
            None => None,
        },
        exit: match item.exited() {
            Some(code) => Some(code as int),
            None => None,
        },
        status: Some(word_for(item.outcome())),
    }
}

/// What one item cost.
pub fn item_cost<F>(item: Item<'_, F>) -> (cost: Cost)
    ensures
        cost@ == item_figures(item),
        cost.in_range(),
{
    let mut cost = Cost {
        wall_ns: None,
        user: None,
        sys: None,
        max_rss_kb: None,
        exit: item.exit(),
        status: Some(status_word(item.status())),
    };
    if let Some(t) = item.status().timing() {
        cost.wall_ns = Some(t.wall_ns);
        cost.user = match t.user_ns {
            Some(ns) => Some(Spent::of(ns)),
            None => None,
        };
        cost.sys = match t.sys_ns {
            Some(ns) => Some(Spent::of(ns)),
            None => None,
        };
        cost.max_rss_kb = t.max_rss_kb;
    }
    cost
}

} // verus!
