//! How a command or a closure came out.

use vstd::prelude::*;

use crate::cpu::list;
use crate::text;

verus! {

/// What one run cost. Times are whole nanoseconds.
#[derive(Clone, Copy, Debug, PartialEq, Eq)]
pub struct Timing {
    pub wall_ns: u64,
    /// `None` for a closure, which has no cpu time of its own.
    pub user_ns: Option<u64>,
    pub sys_ns: Option<u64>,
    pub max_rss_kb: Option<i64>,
    pub exit: i32,
}

impl Timing {
    /// Whether it exited with zero.
    pub fn ok(&self) -> (b: bool)
        ensures
            b == (self.exit == 0),
    {
        self.exit == 0
    }
}

/// How far an item got.
#[derive(Clone, Debug, PartialEq, Eq)]
pub enum Status {
    NotRun,
    /// Never started, because something before it failed.
    Skipped,
    /// Never started, or a closure that returned an error, and why.
    Failed(String),
    /// Killed at its deadline.
    TimedOut(Timing),
    Finished(Timing),
}

impl Status {
    /// Whether this is one of the ways to fail.
    pub open spec fn is_failure(&self) -> bool {
        match *self {
            Status::NotRun | Status::Skipped => false,
            Status::Failed(_) | Status::TimedOut(_) => true,
            Status::Finished(timing) => timing.exit != 0,
        }
    }

    /// What the run cost, for one that ran.
    pub open spec fn cost(&self) -> Option<Timing> {
        match *self {
            Status::TimedOut(timing) | Status::Finished(timing) => Some(timing),
            _ => None,
        }
    }

    /// Whether this is one of the ways to fail.
    pub fn failed(&self) -> (b: bool)
        ensures
            b == self.is_failure(),
    {
        match self {
            Status::NotRun | Status::Skipped => false,
            Status::Failed(_) | Status::TimedOut(_) => true,
            Status::Finished(timing) => !timing.ok(),
        }
    }

    /// What the run cost, for one that ran.
    pub fn timing(&self) -> (r: Option<&Timing>)
        ensures
            match self.cost() {
                Some(timing) => r is Some && *r->0 == timing,
                None => r is None,
            },
    {
        match self {
            Status::TimedOut(timing) | Status::Finished(timing) => Some(timing),
            _ => None,
        }
    }
}

/// The memory policy a command was given once placed.
#[derive(Clone, Debug, PartialEq, Eq)]
pub enum Policy {
    /// The kernel's own.
    Default,
    /// Pages from this node, and from another when it fills.
    Preferred(usize),
    /// Pages from these nodes and no other.
    Bound(Vec<usize>),
    /// A preference left unset, and why.
    Dropped(String),
    /// A bind that could not be met, and why.
    Refused(String),
}

impl Policy {
    /// The policy the way `numa_maps` writes it.
    pub open spec fn reads(&self) -> Option<Seq<char>> {
        match *self {
            Policy::Default | Policy::Dropped(_) => Some("default"@),
            Policy::Preferred(node) => Some("prefer:"@ + text::decimal(node as nat)),
            Policy::Bound(nodes) => Some("bind:"@ + list::list_text(nodes@)),
            Policy::Refused(_) => None,
        }
    }

    /// The policy the way `numa_maps` writes it: `prefer:1`, `bind:0-1` or
    /// `default`, which is also what is left of a preference that was dropped.
    /// `None` for a command refused its bind, which did not run.
    pub fn label(&self) -> (r: Option<String>)
        ensures
            match self.reads() {
                Some(words) => r is Some && r->0@ == words,
                None => r is None,
            },
    {
        match self {
            Policy::Default | Policy::Dropped(_) => Some("default".to_owned()),
            Policy::Preferred(node) => {
                let mut s = "prefer:".to_owned();
                text::push_decimal(&mut s, *node as u128);
                Some(s)
            },
            Policy::Bound(nodes) => {
                let mut s = "bind:".to_owned();
                let words = list::list(nodes.as_slice());
                s.append(words.as_str());
                Some(s)
            },
            Policy::Refused(_) => None,
        }
    }
}

} // verus!
