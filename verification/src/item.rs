//! One thing a step holds, as a sink sees it.

use vstd::prelude::*;

use crate::closure::Closure;
use crate::cmd::{Cmd, Output};
use crate::sorted::{Fields, Names};
use crate::status::{Policy, Status};

verus! {

/// A command or a closure, whichever a step holds.
pub enum Item<'a, F> {
    Cmd(&'a Cmd),
    Closure(&'a Closure<F>),
}

impl<'a, F> Clone for Item<'a, F> {
    fn clone(&self) -> (r: Item<'a, F>)
        ensures
            r == *self,
    {
        match self {
            Item::Cmd(cmd) => Item::Cmd(cmd),
            Item::Closure(closure) => Item::Closure(closure),
        }
    }
}

impl<'a, F> Copy for Item<'a, F> {

}

impl<'a, F> Item<'a, F> {
    /// What to call it.
    pub open spec fn called(self) -> Seq<char> {
        match self {
            Item::Cmd(cmd) => cmd.called(),
            Item::Closure(closure) => closure.name@,
        }
    }

    /// How it came out.
    pub open spec fn outcome(self) -> Status {
        match self {
            Item::Cmd(cmd) => cmd.status,
            Item::Closure(closure) => closure.status,
        }
    }

    /// The values it carries.
    pub open spec fn carried(self) -> Seq<(Seq<char>, Seq<char>)> {
        match self {
            Item::Cmd(cmd) => cmd.fields@,
            Item::Closure(closure) => closure.fields@,
        }
    }

    /// The tags it carries.
    pub open spec fn tagged(self) -> Seq<Seq<char>> {
        match self {
            Item::Cmd(cmd) => cmd.tags@,
            Item::Closure(closure) => closure.tags@,
        }
    }

    /// The shell line that does the same thing.
    pub open spec fn pasted(self) -> Option<Seq<char>> {
        match self {
            Item::Cmd(cmd) => Some(cmd.shell_line()),
            Item::Closure(_) => None,
        }
    }

    /// What it exited with.
    pub open spec fn exited(self) -> Option<i32> {
        match self {
            Item::Cmd(cmd) => match cmd.status.cost() {
                Some(timing) => Some(timing.exit),
                None => None,
            },
            Item::Closure(_) => None,
        }
    }

    /// The cpus it is pinned to.
    pub open spec fn pinned(self) -> Option<Seq<usize>> {
        match self {
            Item::Cmd(cmd) => Some(cmd.cpus@),
            Item::Closure(_) => None,
        }
    }

    /// The nodes those cpus sit on.
    pub open spec fn sits_on(self) -> Option<Seq<usize>> {
        match self {
            Item::Cmd(cmd) => Some(cmd.nodes@),
            Item::Closure(_) => None,
        }
    }

    /// The memory policy it ran under.
    pub open spec fn ran_under(self) -> Option<Seq<char>> {
        match self {
            Item::Cmd(cmd) => if cmd.nodes@.len() == 0 {
                None
            } else {
                cmd.policy.reads()
            },
            Item::Closure(_) => None,
        }
    }

    /// Why it ran without the memory preference it asked for.
    pub open spec fn dropped(self) -> Option<Seq<char>> {
        match self {
            Item::Cmd(cmd) => match cmd.policy {
                Policy::Dropped(why) => Some(why@),
                _ => None,
            },
            Item::Closure(_) => None,
        }
    }

    /// Whether it shares a pool.
    pub open spec fn shares(self) -> bool {
        match self {
            Item::Cmd(cmd) => cmd.pooled,
            Item::Closure(_) => false,
        }
    }

    /// Whether its machine has more than one memory node.
    pub open spec fn on_numa(self) -> bool {
        match self {
            Item::Cmd(cmd) => cmd.numa,
            Item::Closure(_) => false,
        }
    }

    /// How many cores it asked for.
    pub open spec fn asked(self) -> usize {
        match self {
            Item::Cmd(cmd) => match cmd.cores {
                Some(cores) => cores,
                None => 0,
            },
            Item::Closure(_) => 0,
        }
    }

    /// What to call this in a table or on a progress line.
    pub fn label(self) -> (s: String)
        ensures
            s@ == self.called(),
    {
        match self {
            Item::Cmd(cmd) => cmd.label(),
            Item::Closure(closure) => closure.label().to_owned(),
        }
    }

    pub fn status(self) -> (r: &'a Status)
        ensures
            *r == self.outcome(),
    {
        match self {
            Item::Cmd(cmd) => cmd.status(),
            Item::Closure(closure) => closure.status(),
        }
    }

    pub fn fields(self) -> (r: &'a Fields)
        ensures
            r@ == self.carried(),
    {
        match self {
            Item::Cmd(cmd) => cmd.fields(),
            Item::Closure(closure) => closure.fields(),
        }
    }

    pub fn tags(self) -> (r: &'a Names)
        ensures
            r@ == self.tagged(),
    {
        match self {
            Item::Cmd(cmd) => cmd.tags(),
            Item::Closure(closure) => closure.tags(),
        }
    }

    /// The line you could paste into a shell to get the same thing. A closure
    /// has none, run or not.
    pub fn line(self) -> (r: Option<String>)
        ensures
            match self.pasted() {
                Some(line) => r is Some && r->0@ == line,
                None => r is None,
            },
    {
        match self {
            Item::Cmd(cmd) => Some(cmd.line()),
            Item::Closure(_) => None,
        }
    }

    /// Where its stderr went, for one whose stderr was routed to a file.
    pub fn stderr_path(self) -> (r: Option<&'a str>)
        ensures
            match self {
                Item::Cmd(cmd) => match cmd.stderr {
                    Output::Null | Output::Inherit => r is None,
                    Output::File(p) | Output::Append(p) | Output::OnFailure(p) => r is Some
                        && r->0@ == p@,
                },
                Item::Closure(_) => r is None,
            },
    {
        match self {
            Item::Cmd(cmd) => cmd.stderr_path(),
            Item::Closure(_) => None,
        }
    }

    /// What it exited with. `None` for a closure, whose status says how it
    /// returned.
    pub fn exit(self) -> (r: Option<i32>)
        ensures
            r == self.exited(),
    {
        match self {
            Item::Cmd(cmd) => match cmd.status().timing() {
                Some(timing) => Some(timing.exit),
                None => None,
            },
            Item::Closure(_) => None,
        }
    }

    /// How many cores it asked for, zero for one that asked for none.
    pub fn cores(self) -> (n: usize)
        ensures
            n == self.asked(),
    {
        match self {
            Item::Cmd(cmd) => match cmd.cores {
                Some(cores) => cores,
                None => 0,
            },
            Item::Closure(_) => 0,
        }
    }

    /// The cpus it is pinned to: empty until it holds them and after it
    /// releases them. `None` for a closure, which holds no cpus of its own.
    pub fn cpus(self) -> (r: Option<&'a [usize]>)
        ensures
            match self.pinned() {
                Some(cpus) => r is Some && r->0@ == cpus,
                None => r is None,
            },
    {
        match self {
            Item::Cmd(cmd) => Some(cmd.cpus.as_slice()),
            Item::Closure(_) => None,
        }
    }

    pub fn nodes(self) -> (r: Option<&'a [usize]>)
        ensures
            match self.sits_on() {
                Some(nodes) => r is Some && r->0@ == nodes,
                None => r is None,
            },
    {
        match self {
            Item::Cmd(cmd) => Some(cmd.nodes.as_slice()),
            Item::Closure(_) => None,
        }
    }

    /// The memory policy it ran under: `prefer:1`, `bind:0-1` or `default`.
    /// `None` for a closure, for a command never placed on a node, and for one
    /// refused its bind.
    pub fn policy(self) -> (r: Option<String>)
        ensures
            match self.ran_under() {
                Some(words) => r is Some && r->0@ == words,
                None => r is None,
            },
    {
        match self {
            Item::Cmd(cmd) => if cmd.nodes.len() == 0 {
                None
            } else {
                cmd.policy.label()
            },
            Item::Closure(_) => None,
        }
    }

    /// Why it ran without the memory preference it asked for, if it did.
    pub fn policy_note(self) -> (r: Option<&'a str>)
        ensures
            match self.dropped() {
                Some(why) => r is Some && r->0@ == why,
                None => r is None,
            },
    {
        match self {
            Item::Cmd(cmd) => match &cmd.policy {
                Policy::Dropped(why) => Some(why.as_str()),
                _ => None,
            },
            Item::Closure(_) => None,
        }
    }

    /// Whether it ran across the whole of a pool it shared, rather than on cores
    /// leased to it alone. Its [`cpus`](Item::cpus) are then the pool's.
    pub fn pooled(self) -> (b: bool)
        ensures
            b == self.shares(),
    {
        match self {
            Item::Cmd(cmd) => cmd.pooled,
            Item::Closure(_) => false,
        }
    }

    /// Whether the machine this ran on has more than one memory node.
    pub fn numa(self) -> (b: bool)
        ensures
            b == self.on_numa(),
    {
        match self {
            Item::Cmd(cmd) => cmd.numa,
            Item::Closure(_) => false,
        }
    }
}

} // verus!
