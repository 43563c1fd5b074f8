//! Commands or closures that run as one step of a pipeline.

use vstd::prelude::*;
use vstd::std_specs::convert::FromSpecImpl;

use crate::closure::Closure;
use crate::cmd;
use crate::cmd::{Cmd, Memory};
use crate::item::Item;
use crate::label;
use crate::status::Status;
use crate::value::Value;

verus! {

/// How far a failed command reaches.
#[derive(Clone, Copy, Debug, PartialEq, Eq, Structural)]
pub enum OnError {
    /// Run the rest of this step's commands anyway.
    Continue,
    /// Skip the rest of this step. The pipeline carries on to the next one.
    Skip,
    /// Skip the rest of this step, skip every step after it, and fail the run.
    Abort,
}

impl Default for OnError {
    fn default() -> (r: OnError)
        ensures
            r == OnError::Abort,
    {
        OnError::Abort
    }
}

#[derive(Clone, Copy, Debug, PartialEq, Eq, Structural)]
pub enum Strategy {
    Serial,
    Batched { jobs: usize },
}

/// What a step holds: commands or closures.
pub enum Items<F> {
    Cmds {
        cmds: Vec<Cmd>,
        strategy: Strategy,
        /// How many cores each of these asks for, unless it asked for itself.
        cores: Option<usize>,
        /// Where each of these takes its pages from, unless it said for itself.
        memory: Option<Memory>,
    },
    /// Closures, run one after another on the calling thread.
    Closures(Vec<Closure<F>>),
}

pub struct Step<F> {
    pub name: Option<String>,
    pub index: Option<usize>,
    pub on_error: OnError,
    /// How long it took, in nanoseconds, once it is over.
    pub elapsed_ns: Option<u64>,
    pub items: Items<F>,
    /// How many cores to carve for this step alone, when it asked.
    pub pool: Option<usize>,
    /// Whether it runs in a pool, its own or the pipeline's.
    pub pooled: bool,
    /// The cpus of that pool, once the step has started.
    pub pool_cpus: Vec<usize>,
    /// The nodes those cpus sit on, empty on a machine with one.
    pub pool_nodes: Vec<usize>,
}

/// What to say about the first of `cmds` that failed.
pub open spec fn cmds_complaint(cmds: Seq<Cmd>) -> Option<Seq<char>>
    decreases cmds.len(),
{
    if cmds.len() == 0 {
        None
    } else if cmds[0].status.is_failure() {
        Some(cmds[0].called() + " failed: "@ + cmds[0].shell_line())
    } else {
        cmds_complaint(cmds.skip(1))
    }
}

/// What to say about the first of `closures` that failed.
pub open spec fn closures_complaint<F>(closures: Seq<Closure<F>>) -> Option<Seq<char>>
    decreases closures.len(),
{
    if closures.len() == 0 {
        None
    } else if closures[0].status.is_failure() {
        Some(
            match closures[0].status {
                Status::Failed(why) => closures[0].name@ + " failed: "@ + why@,
                _ => closures[0].name@ + " failed"@,
            },
        )
    } else {
        closures_complaint(closures.skip(1))
    }
}

impl<F> Step<F> {
    /// The commands it holds.
    pub open spec fn commands(&self) -> Seq<Cmd> {
        match self.items {
            Items::Cmds { cmds, .. } => cmds@,
            Items::Closures(_) => Seq::empty(),
        }
    }

    /// The closures it holds.
    pub open spec fn bodies(&self) -> Seq<Closure<F>> {
        match self.items {
            Items::Cmds { .. } => Seq::empty(),
            Items::Closures(closures) => closures@,
        }
    }

    /// How many things it holds.
    pub open spec fn size(&self) -> nat {
        match self.items {
            Items::Cmds { cmds, .. } => cmds@.len(),
            Items::Closures(closures) => closures@.len(),
        }
    }

    /// The thing it holds at `i`.
    pub open spec fn holds(&self, i: int) -> Item<'_, F> {
        match self.items {
            Items::Cmds { cmds, .. } => Item::Cmd(&cmds@[i]),
            Items::Closures(closures) => Item::Closure(&closures@[i]),
        }
    }

    /// What to call it.
    pub open spec fn called(&self) -> Seq<char> {
        match self.index {
            Some(index) => label::label_text(index as nat, cmd::maybe(self.name)),
            None => match self.name {
                Some(name) => name@,
                None => Seq::empty(),
            },
        }
    }

    /// How its commands run.
    pub open spec fn planned(&self) -> Option<Strategy> {
        match self.items {
            Items::Cmds { strategy, .. } => Some(strategy),
            Items::Closures(_) => None,
        }
    }

    /// How many of its commands can be running at once.
    pub open spec fn breadth(&self) -> usize {
        match self.planned() {
            Some(Strategy::Batched { jobs }) => jobs,
            _ => 1,
        }
    }

    /// Whether there is room for a command to run.
    pub open spec fn well_formed(&self) -> bool {
        self.breadth() >= 1
    }

    /// What to say about the first thing in it that failed.
    pub open spec fn complaint(&self) -> Option<Seq<char>> {
        match self.items {
            Items::Cmds { cmds, .. } => cmds_complaint(cmds@),
            Items::Closures(closures) => closures_complaint(closures@),
        }
    }

    /// Whether a failure in it ends it early.
    pub open spec fn stops(&self) -> bool {
        self.on_error != OnError::Continue && self.complaint() is Some
    }

    /// What to say about the failure in it that ends the run.
    pub open spec fn ends_the_run(&self) -> Option<Seq<char>> {
        if self.on_error == OnError::Abort {
            self.complaint()
        } else {
            None
        }
    }

    /// Whether nothing has been asked of it but what it holds.
    pub open spec fn is_new(&self) -> bool {
        &&& self.name is None
        &&& self.index is None
        &&& self.on_error == OnError::Abort
        &&& self.elapsed_ns is None
        &&& self.pool is None
        &&& !self.pooled
        &&& self.pool_cpus@.len() == 0
        &&& self.pool_nodes@.len() == 0
    }

    /// One command after another.
    pub fn serial(cmds: Vec<Cmd>) -> (r: Step<F>)
        ensures
            r.items == (Items::<F>::Cmds {
                cmds,
                strategy: Strategy::Serial,
                cores: None,
                memory: None,
            }),
            r.is_new(),
            r.well_formed(),
    {
        Step::of(Items::Cmds { cmds, strategy: Strategy::Serial, cores: None, memory: None })
    }

    /// Up to `jobs` commands at a time, and never none.
    pub fn batched(jobs: usize, cmds: Vec<Cmd>) -> (r: Step<F>)
        ensures
            r.items == (Items::<F>::Cmds {
                cmds,
                strategy: Strategy::Batched {
                    jobs: if jobs == 0 {
                        1
                    } else {
                        jobs
                    },
                },
                cores: None,
                memory: None,
            }),
            r.is_new(),
            r.well_formed(),
    {
        let jobs: usize = if jobs == 0 {
            1
        } else {
            jobs
        };
        Step::of(
            Items::Cmds { cmds, strategy: Strategy::Batched { jobs }, cores: None, memory: None },
        )
    }

    /// One closure after another, on the thread running the pipeline.
    pub fn from_closures(closures: Vec<Closure<F>>) -> (r: Step<F>)
        ensures
            r.items == Items::Closures(closures),
            r.is_new(),
            r.well_formed(),
    {
        Step::of(Items::Closures(closures))
    }

    fn of(items: Items<F>) -> (r: Step<F>)
        ensures
            r.items == items,
            r.is_new(),
    {
        Step {
            name: None,
            index: None,
            on_error: OnError::Abort,
            elapsed_ns: None,
            items,
            pool: None,
            pooled: false,
            pool_cpus: Vec::new(),
            pool_nodes: Vec::new(),
        }
    }

    /// Pin each of this step's commands to `cores` physical cores.
    ///
    /// Per command, not per step: a batch of four with `cores(2)` asks for eight
    /// cores. If the machine cannot spare that many at once, the commands that
    /// cannot be placed wait for the ones that can.
    pub fn cores(self, cores: usize) -> (r: Step<F>)
        ensures
            r == (Step { items: r.items, ..self }),
            r.items == (match self.items {
                Items::Cmds { cmds, strategy, memory, .. } => Items::<F>::Cmds {
                    cmds,
                    strategy,
                    cores: Some(cores),
                    memory,
                },
                Items::Closures(closures) => Items::Closures(closures),
            }),
    {
        let mut step = self;
        if let Items::Cmds { cores: asked, .. } = &mut step.items {
            *asked = Some(cores);
        }
        step
    }

    /// Carve `cores` physical cores for this step as it starts, out of the
    /// pipeline's pool if it has one, and give them back when it ends.
    ///
    /// A command with no cores of its own may run on any core of the pool; one
    /// that asks for some leases them from it. Closures are pinned to the pool.
    pub fn pool(self, cores: usize) -> (r: Step<F>)
        ensures
            r == (Step { pool: Some(cores), ..self }),
    {
        let mut step = self;
        step.pool = Some(cores);
        step
    }

    /// Where these commands take their pages from, for any that did not set
    /// their own.
    pub fn memory(self, memory: Memory) -> (r: Step<F>)
        ensures
            r == (Step { items: r.items, ..self }),
            r.items == (match self.items {
                Items::Cmds { cmds, strategy, cores, .. } => Items::<F>::Cmds {
                    cmds,
                    strategy,
                    cores,
                    memory: Some(memory),
                },
                Items::Closures(closures) => Items::Closures(closures),
            }),
    {
        // a closure holds no cores, so it is never placed anywhere
        // to take its pages from
        let mut step = self;
        if let Items::Cmds { memory: asked, .. } = &mut step.items {
            *asked = Some(memory);
        }
        step
    }

    pub fn name(self, name: impl Value) -> (r: Step<F>)
        ensures
            cmd::maybe(r.name) == Some(name.text()),
            r == (Step { name: r.name, ..self }),
    {
        let mut step = self;
        step.name = Some(name.render());
        step
    }

    pub fn on_error(self, on_error: OnError) -> (r: Step<F>)
        ensures
            r == (Step { on_error, ..self }),
    {
        let mut step = self;
        step.on_error = on_error;
        step
    }

    /// What to call this step. Without a name it is empty until the pipeline
    /// is built and numbers it.
    pub fn label(&self) -> (s: String)
        ensures
            s@ == self.called(),
    {
        match self.index {
            Some(index) => match &self.name {
                Some(name) => label::label(index, Some(name.as_str())),
                None => label::label(index, None),
            },
            None => match &self.name {
                Some(name) => name.clone(),
                None => String::new(),
            },
        }
    }

    pub fn cmds(&self) -> (r: &[Cmd])
        ensures
            r@ == self.commands(),
    {
        match &self.items {
            Items::Cmds { cmds, .. } => cmds.as_slice(),
            Items::Closures(_) => &[],
        }
    }

    pub fn closures(&self) -> (r: &[Closure<F>])
        ensures
            r@ == self.bodies(),
    {
        match &self.items {
            Items::Cmds { .. } => &[],
            Items::Closures(closures) => closures.as_slice(),
        }
    }

    /// Everything this step holds, in the order it was given.
    pub fn items(&self) -> (v: Vec<Item<'_, F>>)
        ensures
            v@ == Seq::new(self.size(), |i: int| self.holds(i)),
    {
        let mut v: Vec<Item<'_, F>> = Vec::new();
        match &self.items {
            Items::Cmds { cmds, .. } => {
                let mut i: usize = 0;
                while i < cmds.len()
                    invariant
                        i <= cmds@.len(),
                        v@ == Seq::new(i as nat, |k: int| Item::<'_, F>::Cmd(&cmds@[k])),
                    decreases cmds@.len() - i,
                {
                    v.push(Item::Cmd(&cmds[i]));
                    i = i + 1;
                    assert(v@ == Seq::new(i as nat, |k: int| Item::<'_, F>::Cmd(&cmds@[k])));
                }
            },
            Items::Closures(closures) => {
                let mut i: usize = 0;
                while i < closures.len()
                    invariant
                        i <= closures@.len(),
                        v@ == Seq::new(i as nat, |k: int| Item::<'_, F>::Closure(&closures@[k])),
                    decreases closures@.len() - i,
                {
                    v.push(Item::Closure(&closures[i]));
                    i = i + 1;
                    assert(v@ == Seq::new(
                        i as nat,
                        |k: int| Item::<'_, F>::Closure(&closures@[k]),
                    ));
                }
            },
        }
        v
    }

    /// How long it took, in nanoseconds, once it is over.
    pub fn wall_ns(&self) -> (r: Option<u64>)
        ensures
            r == self.elapsed_ns,
    {
        self.elapsed_ns
    }

    /// How this step's commands run. `None` for a step of closures, which has
    /// no commands to run either way.
    pub fn strategy(&self) -> (r: Option<Strategy>)
        ensures
            r == self.planned(),
    {
        match &self.items {
            Items::Cmds { strategy, .. } => Some(*strategy),
            Items::Closures(_) => None,
        }
    }

    /// How many of this step's commands can be running at once.
    pub fn width(&self) -> (n: usize)
        ensures
            n == self.breadth(),
    {
        match self.strategy() {
            Some(Strategy::Batched { jobs }) => jobs,
            _ => 1,
        }
    }

    /// The commands it holds, to change. `None` for a step of closures.
    pub fn cmds_mut(&mut self) -> (r: Option<&mut Vec<Cmd>>)
        ensures
            match r {
                Some(cmds) => {
                    &&& old(self).items matches Items::Cmds {
                        cmds: held,
                        strategy,
                        cores,
                        memory,
                    }
                    &&& *cmds == held
                    &&& *final(self) == (Step {
                        items: Items::Cmds { cmds: *final(cmds), strategy, cores, memory },
                        ..*old(self)
                    })
                },
                None => old(self).items is Closures && *final(self) == *old(self),
            },
    {
        match &mut self.items {
            Items::Cmds { cmds, .. } => Some(cmds),
            Items::Closures(_) => None,
        }
    }

    /// The closures it holds, to change. `None` for a step of commands.
    pub fn closures_mut(&mut self) -> (r: Option<&mut Vec<Closure<F>>>)
        ensures
            match r {
                Some(closures) => {
                    &&& old(self).items matches Items::Closures(held)
                    &&& *closures == held
                    &&& *final(self) == (Step {
                        items: Items::Closures(*final(closures)),
                        ..*old(self)
                    })
                },
                None => old(self).items is Cmds && *final(self) == *old(self),
            },
    {
        match &mut self.items {
            Items::Cmds { .. } => None,
            Items::Closures(closures) => Some(closures),
        }
    }

    /// Whether the rest of this step's commands are not worth running.
    pub fn skips(&self) -> (b: bool)
        ensures
            b == self.stops(),
    {
        self.on_error != OnError::Continue && self.failed().is_some()
    }

    /// What to say about the thing that ends the run, if this step holds one.
    pub fn aborts(&self) -> (r: Option<String>)
        ensures
            match self.ends_the_run() {
                Some(why) => r is Some && r->0@ == why,
                None => r is None,
            },
    {
        if self.on_error == OnError::Abort {
            self.failed()
        } else {
            None
        }
    }

    /// The first thing in this step that failed, described.
    pub fn failed(&self) -> (r: Option<String>)
        ensures
            match self.complaint() {
                Some(why) => r is Some && r->0@ == why,
                None => r is None,
            },
    {
        match &self.items {
            Items::Cmds { cmds, .. } => {
                let mut i: usize = 0;
                assert(cmds@.skip(0) == cmds@);
                while i < cmds.len()
                    invariant
                        i <= cmds@.len(),
                        self.complaint() == cmds_complaint(cmds@.skip(i as int)),
                    decreases cmds@.len() - i,
                {
                    let ghost rest = cmds@.skip(i as int);
                    assert(rest[0] == cmds@[i as int]);
                    assert(rest.skip(1) == cmds@.skip(i + 1));
                    if cmds[i].status().failed() {
                        let mut s = cmds[i].label();
                        s.append(" failed: ");
                        let line = cmds[i].line();
                        s.append(line.as_str());
                        return Some(s);
                    }
                    i = i + 1;
                }
                None
            },
            // a closure has no stderr file, so its message is the
            // only record of why it failed
            Items::Closures(closures) => {
                let mut i: usize = 0;
                assert(closures@.skip(0) == closures@);
                while i < closures.len()
                    invariant
                        i <= closures@.len(),
                        self.complaint() == closures_complaint(closures@.skip(i as int)),
                    decreases closures@.len() - i,
                {
                    let ghost rest = closures@.skip(i as int);
                    assert(rest[0] == closures@[i as int]);
                    assert(rest.skip(1) == closures@.skip(i + 1));
                    if closures[i].status().failed() {
                        let mut s = closures[i].label().to_owned();
                        match closures[i].status() {
                            Status::Failed(why) => {
                                s.append(" failed: ");
                                s.append(why.as_str());
                            },
                            // a failure that carries no message
                            _ => {
                                s.append(" failed");
                            },
                        }
                        return Some(s);
                    }
                    i = i + 1;
                }
                None
            },
        }
    }
}

impl<F> From<Cmd> for Step<F> {
    fn from(cmd: Cmd) -> (r: Step<F>)
        ensures
            r.is_new(),
            r.well_formed(),
            r.commands() == seq![cmd],
            r.planned() == Some(Strategy::Serial),
            r.items matches Items::Cmds { cores, memory, .. } && cores is None && memory is None,
    {
        let mut cmds: Vec<Cmd> = Vec::new();
        cmds.push(cmd);
        Step::serial(cmds)
    }
}

impl<F> FromSpecImpl<Cmd> for Step<F> {
    open spec fn obeys_from_spec() -> bool {
        false
    }

    open spec fn from_spec(cmd: Cmd) -> Step<F> {
        arbitrary()
    }
}

impl<F> From<Closure<F>> for Step<F> {
    fn from(closure: Closure<F>) -> (r: Step<F>)
        ensures
            r.is_new(),
            r.well_formed(),
            r.bodies() == seq![closure],
            r.planned() is None,
    {
        let mut closures: Vec<Closure<F>> = Vec::new();
        closures.push(closure);
        Step::from_closures(closures)
    }
}

impl<F> FromSpecImpl<Closure<F>> for Step<F> {
    open spec fn obeys_from_spec() -> bool {
        false
    }

    open spec fn from_spec(closure: Closure<F>) -> Step<F> {
        arbitrary()
    }
}

proof fn lemma_no_complaint_cmds(cmds: Seq<Cmd>)
    ensures
        cmds_complaint(cmds) is None <==> forall|i: int|
            0 <= i < cmds.len() ==> !(#[trigger] cmds[i]).status.is_failure(),
    decreases cmds.len(),
{
    if cmds.len() > 0 {
        let rest = cmds.skip(1);
        lemma_no_complaint_cmds(rest);
        assert forall|i: int| 1 <= i < cmds.len() implies cmds[i] == #[trigger] rest[i - 1] by {
        }
        if cmds_complaint(cmds) is None {
            assert forall|i: int| 0 <= i < cmds.len() implies !(
            #[trigger] cmds[i]).status.is_failure() by {
                if i > 0 {
                    assert(!rest[i - 1].status.is_failure());
                }
            }
        }
    }
}

proof fn lemma_no_complaint_closures<F>(closures: Seq<Closure<F>>)
    ensures
        closures_complaint(closures) is None <==> forall|i: int|
            0 <= i < closures.len() ==> !(#[trigger] closures[i]).status.is_failure(),
    decreases closures.len(),
{
    if closures.len() > 0 {
        let rest = closures.skip(1);
        lemma_no_complaint_closures(rest);
        assert forall|i: int| 1 <= i < closures.len() implies closures[i]
            == #[trigger] rest[i - 1] by {
        }
        if closures_complaint(closures) is None {
            assert forall|i: int| 0 <= i < closures.len() implies !(
            #[trigger] closures[i]).status.is_failure() by {
                if i > 0 {
                    assert(!rest[i - 1].status.is_failure());
                }
            }
        }
    }
}

/// A failure reaches as far as its step says and no further. A step with none
/// is never cut short, one that continues never is either, one that skips cuts
/// only itself short, and one that aborts does both.
pub proof fn law_how_far_a_failure_reaches<F>(step: &Step<F>)
    ensures
        (forall|i: int|
            0 <= i < step.size() ==> !(#[trigger] step.holds(i)).outcome().is_failure())
            ==> !step.stops() && step.ends_the_run() is None,
        (exists|i: int|
            0 <= i < step.size() && (#[trigger] step.holds(i)).outcome().is_failure()) ==> (
        match step.on_error {
            OnError::Continue => !step.stops() && step.ends_the_run() is None,
            OnError::Skip => step.stops() && step.ends_the_run() is None,
            OnError::Abort => step.stops() && step.ends_the_run() is Some,
        }),
        step.ends_the_run() is Some ==> step.stops(),
{
    match step.items {
        Items::Cmds { cmds, .. } => {
            lemma_no_complaint_cmds(cmds@);
            assert forall|i: int| 0 <= i < cmds@.len() implies (#[trigger] cmds@[i]).status
                == step.holds(i).outcome() by {
            }
        },
        Items::Closures(closures) => {
            lemma_no_complaint_closures(closures@);
            assert forall|i: int| 0 <= i < closures@.len() implies (#[trigger] closures@[i]).status
                == step.holds(i).outcome() by {
            }
        },
    }
}

} // verus!
