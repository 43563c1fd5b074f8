//! The cores a pipeline has to hand out, and which of them are in use.
//!
//! A command asks for a number of cores and never says which. [`Cores`] tracks
//! which are free, leases that many, and takes them back when the command is
//! done.

use vstd::prelude::*;

use crate::cpu::laws;
use crate::cpu::place;
use crate::cpu::place::{Cpu, Placement};
use crate::order;

verus! {

/// The cores a pipeline has to hand out, one logical CPU per physical core,
/// and which of them are in use.
#[derive(Debug)]
pub struct Cores {
    pub pool: Vec<Cpu>,
    /// The cpus currently leased out.
    pub taken: Vec<usize>,
    /// Which node a request comes off when more than one could hold it.
    pub placement: Placement,
    /// The memory nodes this process may allocate from, or empty where that
    /// could not be read.
    pub mems: Vec<usize>,
    /// Whether the cpus this process may run on cover more than one memory
    /// node.
    //
    // read off the whole pool once and copied into every
    // carve: a pool carved onto one node of a two node machine
    // still names its node and sets its policy
    pub numa: bool,
    /// Whether this is a pool carved for a pipeline or a step, which a command
    /// asking for no cores runs across whole.
    pub pooled: bool,
}

/// Cores held for as long as one command needs them.
#[derive(Debug)]
pub struct Lease {
    pub cpus: Vec<usize>,
    /// The memory nodes those cpus sit on, or nothing at all on a machine with
    /// only one.
    //
    // empty is what keeps a single node machine out of
    // set_mempolicy and out of the table's node column:
    // naming its only node asks for the placement every
    // allocation already gets
    pub nodes: Vec<usize>,
}

/// What asking for cores came to.
#[derive(Debug)]
pub enum Turn {
    /// These are yours until released.
    Held(Lease),
    /// Not now, and nothing to wait for.
    Never,
    /// Not now. Ask again once something is released.
    Wait,
}

/// The cpus of `pool` that nothing has taken, in pool order.
pub open spec fn untaken(pool: Seq<Cpu>, taken: Seq<usize>) -> Seq<Cpu>
    decreases pool.len(),
{
    if pool.len() == 0 {
        pool
    } else {
        let rest = untaken(pool.drop_last(), taken);
        if taken.contains(pool.last().id) {
            rest
        } else {
            rest.push(pool.last())
        }
    }
}

/// The numbers of `taken` that are not among `back`, in order.
pub open spec fn without(taken: Seq<usize>, back: Seq<usize>) -> Seq<usize>
    decreases taken.len(),
{
    if taken.len() == 0 {
        taken
    } else {
        let rest = without(taken.drop_last(), back);
        if back.contains(taken.last()) {
            rest
        } else {
            rest.push(taken.last())
        }
    }
}

/// `line` with `cpu` put behind everything numbered no higher.
pub open spec fn shelve(line: Seq<Cpu>, cpu: Cpu) -> Seq<Cpu>
    decreases line.len(),
{
    if line.len() == 0 || line.last().id <= cpu.id {
        line.push(cpu)
    } else {
        shelve(line.drop_last(), cpu).push(line.last())
    }
}

/// `cpus` by number, lowest first.
pub open spec fn by_id(cpus: Seq<Cpu>) -> Seq<Cpu>
    decreases cpus.len(),
{
    if cpus.len() == 0 {
        cpus
    } else {
        shelve(by_id(cpus.drop_last()), cpus.last())
    }
}

/// The nodes `cpus` sit on, lowest first, or none on a machine with one.
pub open spec fn named_nodes(numa: bool, cpus: Seq<Cpu>) -> Seq<usize> {
    if numa {
        place::nodes_under(cpus)
    } else {
        Seq::empty()
    }
}

/// Whether `nodes` rise and are the ones that cpus of `pool` numbered in `cpus`
/// sit on: every such node, and no other.
pub open spec fn sat_on(pool: Seq<Cpu>, cpus: Seq<usize>, nodes: Seq<usize>) -> bool {
    &&& order::rising(nodes)
    &&& forall|node: usize| #[trigger]
        nodes.contains(node) <==> exists|i: int|
            0 <= i < pool.len() && (#[trigger] pool[i]).node == node && cpus.contains(pool[i].id)
}

/// Whether these cpus cover more than one memory node.
pub open spec fn spanning(pool: Seq<Cpu>) -> bool {
    exists|i: int| 0 <= i < pool.len() && (#[trigger] pool[i]).node != pool[0].node
}

impl Cores {
    /// No cpu is in the pool twice, and only the pool's cpus are taken, each
    /// once.
    pub open spec fn well_formed(&self) -> bool {
        &&& place::ids(self.pool@).no_duplicates()
        &&& self.taken@.no_duplicates()
        &&& forall|i: int|
            0 <= i < self.taken@.len() ==> place::ids(self.pool@).contains(
                #[trigger] self.taken@[i],
            )
    }

    /// The cpus free to hand out.
    pub open spec fn free(&self) -> Seq<Cpu> {
        untaken(self.pool@, self.taken@)
    }

    /// The cpus a request for `size` gets, when there are that many free.
    pub open spec fn offer(&self, size: nat) -> Seq<Cpu> {
        place::placed(self.free(), size, self.placement)
    }

    /// Whether `lease` is what a request for `size` gets.
    pub open spec fn grants(&self, size: nat, lease: Lease) -> bool {
        &&& lease.cpus@ == place::ids(by_id(self.offer(size)))
        &&& lease.nodes@ == named_nodes(self.numa, self.offer(size))
    }

    /// Whether `lease` is `size` cpus of the pool, lowest first, that nothing
    /// held, and names the nodes they sit on where there is more than one.
    pub open spec fn honours(&self, size: nat, lease: Lease) -> bool {
        &&& lease.cpus@.len() == size
        &&& order::rising(lease.cpus@)
        &&& forall|cpu: usize| #[trigger]
            lease.cpus@.contains(cpu) ==> place::ids(self.pool@).contains(cpu)
                && !self.taken@.contains(cpu)
        &&& if self.numa {
            sat_on(self.pool@, lease.cpus@, lease.nodes@)
        } else {
            lease.nodes@.len() == 0
        }
    }

    /// Whether `carved` is what carving `size` of these cpus gets.
    pub open spec fn carves(&self, size: nat, carved: Cores) -> bool {
        &&& carved.pool@ == by_id(place::placed(self.pool@, size, self.placement))
        &&& carved.taken@ == Seq::<usize>::empty()
        &&& carved.placement == self.placement
        &&& carved.mems@ == self.mems@
        &&& carved.numa == self.numa
        &&& carved.pooled
    }

    /// Whether `self` is `before` with only what is taken changed.
    pub open spec fn same_but_taken(&self, before: &Cores) -> bool {
        &&& self.pool@ == before.pool@
        &&& self.placement == before.placement
        &&& self.mems@ == before.mems@
        &&& self.numa == before.numa
        &&& self.pooled == before.pooled
    }

    /// This pool, with nothing taken from it.
    pub fn new(pool: Vec<Cpu>, mems: Vec<usize>) -> (r: Cores)
        ensures
            r.pool@ == pool@,
            r.taken@ == Seq::<usize>::empty(),
            r.placement == Placement::Pack,
            r.mems@ == mems@,
            r.numa == spanning(pool@),
            !r.pooled,
            place::ids(pool@).no_duplicates() ==> r.well_formed(),
    {
        Cores {
            numa: spans_nodes(pool.as_slice()),
            pool,
            taken: Vec::new(),
            placement: Placement::Pack,
            mems,
            pooled: false,
        }
    }

    /// A pool of exactly these cpus, all on node 0.
    pub fn with_pool(pool: Vec<usize>) -> (r: Cores)
        ensures
            place::ids(r.pool@) == pool@,
            forall|i: int| 0 <= i < pool@.len() ==> (#[trigger] r.pool@[i]).node == 0,
            r.taken@ == Seq::<usize>::empty(),
            r.placement == Placement::Pack,
            r.mems@ == Seq::<usize>::empty(),
            !r.numa,
            !r.pooled,
            pool@.no_duplicates() ==> r.well_formed(),
    {
        let mut layout: Vec<(usize, usize)> = Vec::new();
        let mut i: usize = 0;
        while i < pool.len()
            invariant
                i <= pool@.len(),
                layout@.len() == i,
                forall|k: int| 0 <= k < i ==> #[trigger] layout@[k] == (pool@[k], 0usize),
            decreases pool@.len() - i,
        {
            layout.push((pool[i], 0));
            i = i + 1;
        }
        let r = Cores::with_layout(layout.as_slice());
        assert(place::ids(r.pool@) == pool@);
        r
    }

    /// A pool laid out as `(cpu, node)`.
    pub fn with_layout(layout: &[(usize, usize)]) -> (r: Cores)
        ensures
            r.pool@.len() == layout@.len(),
            forall|i: int|
                0 <= i < layout@.len() ==> (#[trigger] r.pool@[i]).id == layout@[i].0
                    && r.pool@[i].node == layout@[i].1,
            r.taken@ == Seq::<usize>::empty(),
            r.placement == Placement::Pack,
            r.mems@ == Seq::<usize>::empty(),
            r.numa == spanning(r.pool@),
            !r.pooled,
            place::ids(r.pool@).no_duplicates() ==> r.well_formed(),
    {
        let mut pool: Vec<Cpu> = Vec::new();
        let mut i: usize = 0;
        while i < layout.len()
            invariant
                i <= layout@.len(),
                pool@.len() == i,
                forall|k: int|
                    0 <= k < i ==> (#[trigger] pool@[k]).id == layout@[k].0 && pool@[k].node
                        == layout@[k].1,
            decreases layout@.len() - i,
        {
            pool.push(Cpu { id: layout[i].0, node: layout[i].1 });
            i = i + 1;
        }
        Cores::new(pool, Vec::new())
    }

    /// A pool of `size` of these cpus, chosen the way a command's would be.
    ///
    /// Nothing may be leased from this one while the carve is in use: a
    /// pipeline carves before its run and a step as it starts, when nothing
    /// else holds any.
    pub fn carve(&self, size: usize) -> (r: Cores)
        ensures
            r.pool@ == by_id(place::placed(self.pool@, size as nat, self.placement)),
            r.taken@ == Seq::<usize>::empty(),
            r.placement == self.placement,
            r.mems@ == self.mems@,
            r.numa == self.numa,
            r.pooled,
            self.carves(size as nat, r),
            self.well_formed() ==> r.well_formed(),
    {
        let pool = shelved(&place::place(self.pool.as_slice(), size, self.placement));
        let mut r = Cores::new(pool, copied(self.mems.as_slice()));
        r.placement = self.placement;
        r.numa = self.numa;
        r.pooled = true;
        proof {
            if self.well_formed() {
                laws::law_carve_stays_inside(self, size as nat, &r);
            }
        }
        r
    }

    /// The cpus of a carved pool and the nodes they sit on, for a command that
    /// shares it rather than leasing cores of its own. `None` for the machine's
    /// own pool, whose commands asking for no cores are not pinned at all.
    pub fn whole(&self) -> (r: Option<(Vec<usize>, Vec<usize>)>)
        ensures
            r is Some <==> self.pooled,
            r matches Some((cpus, nodes)) ==> cpus@ == place::ids(self.pool@) && nodes@
                == named_nodes(self.numa, self.pool@),
            r matches Some((cpus, nodes)) ==> if self.numa {
                sat_on(self.pool@, cpus@, nodes@)
            } else {
                nodes@.len() == 0
            },
    {
        if !self.pooled {
            return None;
        }
        proof {
            laws::law_a_pool_names_its_nodes(self);
        }
        Some((numbers(self.pool.as_slice()), self.nodes_of(self.pool.as_slice())))
    }

    /// The nodes `cpus` sit on, lowest first, or none on a machine with one.
    pub fn nodes_of(&self, cpus: &[Cpu]) -> (v: Vec<usize>)
        ensures
            v@ == named_nodes(self.numa, cpus@),
            !self.numa ==> v@.len() == 0,
            self.numa ==> order::rising(v@) && forall|node: usize| #[trigger]
                v@.contains(node) <==> exists|i: int|
                    0 <= i < cpus@.len() && (#[trigger] cpus@[i]).node == node,
    {
        proof {
            laws::law_nodes_are_those_sat_on(self.numa, cpus@);
        }
        if !self.numa {
            return Vec::new();
        }
        place::nodes_beneath(cpus)
    }

    /// This pool's cpus, grouped by the node they sit on, lowest node first.
    pub fn by_node(&self) -> (v: Vec<(usize, Vec<usize>)>)
        ensures
            v@.len() == place::nodes_under(self.pool@).len(),
            forall|i: int|
                0 <= i < v@.len() ==> (#[trigger] v@[i]).0 == place::nodes_under(self.pool@)[i]
                    && v@[i].1@ == place::ids(
                    place::members(self.pool@, place::nodes_under(self.pool@)[i]),
                ),
    {
        let nodes = place::nodes_beneath(self.pool.as_slice());
        let mut v: Vec<(usize, Vec<usize>)> = Vec::new();
        let mut i: usize = 0;
        while i < nodes.len()
            invariant
                i <= nodes@.len(),
                nodes@ == place::nodes_under(self.pool@),
                v@.len() == i,
                forall|k: int|
                    0 <= k < i ==> (#[trigger] v@[k]).0 == nodes@[k] && v@[k].1@ == place::ids(
                        place::members(self.pool@, nodes@[k]),
                    ),
            decreases nodes@.len() - i,
        {
            let group = place::gather(self.pool.as_slice(), nodes[i]);
            v.push((nodes[i], numbers(group.as_slice())));
            i = i + 1;
        }
        v
    }

    pub fn len(&self) -> (n: usize)
        ensures
            n == self.pool@.len(),
    {
        self.pool.len()
    }

    /// Take `size` cores, or say whether they are worth waiting for.
    ///
    /// Never for a request of zero or of more than the pool holds, and never
    /// once `abandon` says so of a request that would have to wait.
    pub fn acquire<A: Fn() -> bool>(&mut self, size: usize, abandon: A) -> (turn: Turn)
        requires
            abandon.requires(()),
        ensures
            final(self).same_but_taken(old(self)),
            !(turn is Held) ==> final(self).taken@ == old(self).taken@,
            turn is Held <==> 0 < size <= old(self).free().len(),
            turn matches Turn::Held(lease) ==> old(self).grants(size as nat, lease)
                && final(self).taken@ == old(self).taken@ + lease.cpus@,
            turn matches Turn::Held(lease) ==> old(self).well_formed() ==> old(self).honours(
                size as nat,
                lease,
            ),
            old(self).well_formed() ==> final(self).well_formed(),
            turn is Never ==> size == 0 || size > old(self).pool@.len() || abandon.ensures(
                (),
                true,
            ),
            turn is Wait ==> 0 < size <= old(self).pool@.len() && abandon.ensures((), false),
    {
        proof {
            lemma_untaken(self.pool@, self.taken@);
        }
        if size == 0 || size > self.pool.len() {
            return Turn::Never;
        }
        match self.grab(size) {
            Some(lease) => Turn::Held(lease),
            None => {
                if abandon() {
                    Turn::Never
                } else {
                    Turn::Wait
                }
            },
        }
    }

    /// Take `size` cores if they are free right now, and never wait. For
    /// working out what a run would look like without running it.
    pub fn try_acquire(&mut self, size: usize) -> (r: Option<Lease>)
        ensures
            final(self).same_but_taken(old(self)),
            r is None ==> final(self).taken@ == old(self).taken@,
            r is Some <==> 0 < size <= old(self).free().len(),
            r matches Some(lease) ==> old(self).grants(size as nat, lease) && final(self).taken@
                == old(self).taken@ + lease.cpus@,
            r matches Some(lease) ==> old(self).well_formed() ==> old(self).honours(
                size as nat,
                lease,
            ),
            old(self).well_formed() ==> final(self).well_formed(),
    {
        if size == 0 {
            return None;
        }
        self.grab(size)
    }

    /// Take `size` cores if that many are free, the best arrangement of them
    /// there is right now.
    //
    // even across nodes: one node is worth choosing but not
    // worth holding a command back for
    fn grab(&mut self, size: usize) -> (r: Option<Lease>)
        ensures
            final(self).same_but_taken(old(self)),
            r is None ==> final(self).taken@ == old(self).taken@,
            r is Some <==> size <= old(self).free().len(),
            r matches Some(lease) ==> old(self).grants(size as nat, lease) && final(self).taken@
                == old(self).taken@ + lease.cpus@,
            r matches Some(lease) ==> old(self).well_formed() ==> old(self).honours(
                size as nat,
                lease,
            ),
            old(self).well_formed() ==> final(self).well_formed(),
    {
        let free = self.unused();
        if free.len() < size {
            return None;
        }
        let placed = place::place(free.as_slice(), size, self.placement);
        // lowest first, so a run with the machine to itself
        // places its commands the same way every time and the
        // cpu column reads in order
        let cpus = numbers(shelved(&placed).as_slice());
        let nodes = self.nodes_of(placed.as_slice());
        self.taken.extend_from_slice(cpus.as_slice());
        assert(self.taken@ == old(self).taken@ + cpus@);
        let lease = Lease { cpus, nodes };
        proof {
            if old(self).well_formed() {
                laws::law_lease_is_free(old(self), size as nat, lease);
                laws::law_a_lease_names_its_nodes(old(self), size as nat, lease);
                laws::law_lease_keeps_the_pool(old(self), size as nat, lease, self);
            }
        }
        Some(lease)
    }

    /// The cpus nothing holds.
    fn unused(&self) -> (v: Vec<Cpu>)
        ensures
            v@ == self.free(),
    {
        let mut v: Vec<Cpu> = Vec::new();
        let mut i: usize = 0;
        while i < self.pool.len()
            invariant
                i <= self.pool@.len(),
                v@ == untaken(self.pool@.take(i as int), self.taken@),
            decreases self.pool@.len() - i,
        {
            assert(self.pool@.take(i + 1).drop_last() == self.pool@.take(i as int));
            if !order::holds(self.taken.as_slice(), self.pool[i].id) {
                v.push(self.pool[i]);
            }
            i = i + 1;
        }
        assert(self.pool@.take(self.pool@.len() as int) == self.pool@);
        v
    }

    /// Hand `cpus` back.
    pub fn release(&mut self, cpus: &[usize])
        ensures
            final(self).same_but_taken(old(self)),
            final(self).taken@ == without(old(self).taken@, cpus@),
            forall|cpu: usize| #[trigger]
                final(self).taken@.contains(cpu) <==> old(self).taken@.contains(cpu)
                    && !cpus@.contains(cpu),
            old(self).well_formed() ==> final(self).well_formed(),
    {
        proof {
            laws::lemma_without(self.taken@, cpus@);
        }
        let mut kept: Vec<usize> = Vec::new();
        let mut i: usize = 0;
        while i < self.taken.len()
            invariant
                i <= self.taken@.len(),
                *self == *old(self),
                kept@ == without(self.taken@.take(i as int), cpus@),
            decreases self.taken@.len() - i,
        {
            assert(self.taken@.take(i + 1).drop_last() == self.taken@.take(i as int));
            if !order::holds(cpus, self.taken[i]) {
                kept.push(self.taken[i]);
            }
            i = i + 1;
        }
        assert(self.taken@.take(self.taken@.len() as int) == self.taken@);
        self.taken = kept;
        proof {
            if old(self).well_formed() {
                laws::law_release_keeps_the_pool(old(self), cpus@, self);
            }
        }
    }
}

impl Lease {
    pub fn cpus(&self) -> (s: &[usize])
        ensures
            s@ == self.cpus@,
    {
        self.cpus.as_slice()
    }

    pub fn nodes(&self) -> (s: &[usize])
        ensures
            s@ == self.nodes@,
    {
        self.nodes.as_slice()
    }
}

/// Whether these cpus cover more than one memory node.
pub fn spans_nodes(pool: &[Cpu]) -> (b: bool)
    ensures
        b == spanning(pool@),
{
    let mut i: usize = 0;
    while i < pool.len()
        invariant
            i <= pool@.len(),
            forall|k: int| 0 <= k < i ==> (#[trigger] pool@[k]).node == pool@[0].node,
        decreases pool@.len() - i,
    {
        if pool[i].node != pool[0].node {
            return true;
        }
        i = i + 1;
    }
    false
}

/// There are never more free cpus than the pool holds.
pub proof fn lemma_untaken(pool: Seq<Cpu>, taken: Seq<usize>)
    ensures
        untaken(pool, taken).len() <= pool.len(),
        forall|c: Cpu| #[trigger]
            untaken(pool, taken).contains(c) <==> pool.contains(c) && !taken.contains(c.id),
    decreases pool.len(),
{
    if pool.len() > 0 {
        let init = pool.drop_last();
        let rest = untaken(init, taken);
        let all = untaken(pool, taken);
        lemma_untaken(init, taken);
        assert forall|c: Cpu| #[trigger]
            all.contains(c) <==> pool.contains(c) && !taken.contains(c.id) by {
            if all.contains(c) {
                let i = choose|i: int| 0 <= i < all.len() && all[i] == c;
                if i < rest.len() {
                    assert(rest[i] == c);
                    assert(rest.contains(c));
                    let k = choose|k: int| 0 <= k < init.len() && init[k] == c;
                    assert(pool[k] == c);
                } else {
                    assert(pool[pool.len() - 1] == c);
                }
            }
            if pool.contains(c) && !taken.contains(c.id) {
                let k = choose|k: int| 0 <= k < pool.len() && pool[k] == c;
                if k < init.len() {
                    assert(init[k] == c);
                    assert(rest.contains(c));
                    let i = choose|i: int| 0 <= i < rest.len() && rest[i] == c;
                    assert(all[i] == c);
                } else {
                    assert(all[all.len() - 1] == c);
                }
            }
        }
    }
}

/// The numbers of `cpus`.
fn numbers(cpus: &[Cpu]) -> (v: Vec<usize>)
    ensures
        v@ == place::ids(cpus@),
{
    let mut v: Vec<usize> = Vec::new();
    let mut i: usize = 0;
    while i < cpus.len()
        invariant
            i <= cpus@.len(),
            v@ == place::ids(cpus@.take(i as int)),
        decreases cpus@.len() - i,
    {
        v.push(cpus[i].id);
        i = i + 1;
        assert(v@ == place::ids(cpus@.take(i as int)));
    }
    assert(cpus@.take(cpus@.len() as int) == cpus@);
    v
}

/// A copy of `s`.
fn copied(s: &[usize]) -> (v: Vec<usize>)
    ensures
        v@ == s@,
{
    let mut v: Vec<usize> = Vec::new();
    v.extend_from_slice(s);
    v
}

/// `cpus` by number, lowest first.
fn shelved(cpus: &Vec<Cpu>) -> (v: Vec<Cpu>)
    ensures
        v@ == by_id(cpus@),
{
    let mut v: Vec<Cpu> = Vec::new();
    let mut i: usize = 0;
    while i < cpus.len()
        invariant
            i <= cpus@.len(),
            v@ == by_id(cpus@.take(i as int)),
        decreases cpus@.len() - i,
    {
        let cpu = cpus[i];
        let ghost line = v@;
        let mut at: usize = v.len();
        assert(line.take(at as int) == line);
        assert(shelve(line, cpu) + line.skip(at as int) == shelve(line, cpu));
        while at > 0 && v[at - 1].id > cpu.id
            invariant
                at <= v@.len(),
                v@ == line,
                shelve(line, cpu) == shelve(line.take(at as int), cpu) + line.skip(at as int),
            decreases at,
        {
            proof {
                let t = line.take(at as int);
                assert(t.drop_last() == line.take(at - 1));
                assert(shelve(line.take(at - 1), cpu).push(line[at - 1]) + line.skip(at as int)
                    == shelve(line.take(at - 1), cpu) + line.skip(at - 1));
            }
            at = at - 1;
        }
        proof {
            let t = line.take(at as int);
            assert(shelve(t, cpu) == t.push(cpu));
            assert(cpus@.take(i + 1).drop_last() == cpus@.take(i as int));
        }
        v.insert(at, cpu);
        assert(v@ == line.take(at as int).push(cpu) + line.skip(at as int));
        i = i + 1;
    }
    assert(cpus@.take(cpus@.len() as int) == cpus@);
    v
}

} // verus!
