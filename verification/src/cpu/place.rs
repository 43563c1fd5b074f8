//! Choosing which free cpus a request gets.
//!
//! A request's cpus come off one memory node wherever that node has enough
//! free, so its threads and the memory they touch are on the same node.

use vstd::prelude::*;

use crate::order;

verus! {

/// One cpu in the pool, and where it sits on the machine.
#[derive(Clone, Copy, Debug, PartialEq, Eq, Structural)]
pub struct Cpu {
    pub id: usize,
    /// The memory node it belongs to.
    pub node: usize,
}

/// Which node a command's cores come off, when more than one could hold them.
#[derive(Clone, Copy, Debug, PartialEq, Eq, Structural)]
pub enum Placement {
    /// The node with the fewest free cores that still fits, keeping the others
    /// whole for a wider request. Concurrent commands share a node's cache and
    /// memory bandwidth.
    Pack,
    /// The node with the most free cores, so concurrent commands land on
    /// separate nodes until there are more of them than nodes.
    Spread,
}

impl Default for Placement {
    fn default() -> (p: Placement)
        ensures
            p == Placement::Pack,
    {
        Placement::Pack
    }
}

/// The cpus of `cpus` that sit on `node`, in the order they came.
pub open spec fn members(cpus: Seq<Cpu>, node: usize) -> Seq<Cpu>
    decreases cpus.len(),
{
    if cpus.len() == 0 {
        cpus
    } else {
        let rest = members(cpus.drop_last(), node);
        if cpus.last().node == node {
            rest.push(cpus.last())
        } else {
            rest
        }
    }
}

/// The numbers of `cpus`, in the order they came.
pub open spec fn ids(cpus: Seq<Cpu>) -> Seq<usize> {
    cpus.map_values(|c: Cpu| c.id)
}

/// The nodes `cpus` sit on, lowest first.
pub open spec fn nodes_under(cpus: Seq<Cpu>) -> Seq<usize> {
    order::ascending(cpus.map_values(|c: Cpu| c.node))
}

/// Whether node `a` comes ahead of node `b` when the free cpus are handed out.
///
/// Packing goes by the fewest free, and the lower node among equals. Spreading
/// goes by the most free, and the lower first cpu among equals.
pub open spec fn ahead(free: Seq<Cpu>, by: Placement, a: usize, b: usize) -> bool {
    let m = members(free, a);
    let n = members(free, b);
    match by {
        Placement::Pack => m.len() < n.len() || (m.len() == n.len() && a < b),
        Placement::Spread => m.len() > n.len() || (m.len() == n.len() && (m[0].id < n[0].id || (
        m[0].id == n[0].id && a < b))),
    }
}

/// `line` with `node` put behind everything it is not ahead of.
pub open spec fn join_line(free: Seq<Cpu>, by: Placement, line: Seq<usize>, node: usize) -> Seq<
    usize,
>
    decreases line.len(),
{
    if line.len() == 0 || !ahead(free, by, node, line.last()) {
        line.push(node)
    } else {
        join_line(free, by, line.drop_last(), node).push(line.last())
    }
}

/// `nodes` in the order their cpus are handed out.
pub open spec fn lined_up(free: Seq<Cpu>, by: Placement, nodes: Seq<usize>) -> Seq<usize>
    decreases nodes.len(),
{
    if nodes.len() == 0 {
        nodes
    } else {
        join_line(free, by, lined_up(free, by, nodes.drop_last()), nodes.last())
    }
}

/// Every node with a free cpu, in the order they are handed out.
pub open spec fn ranked(free: Seq<Cpu>, by: Placement) -> Seq<usize> {
    lined_up(free, by, nodes_under(free))
}

/// The first node of `line` with at least `size` free cpus.
pub open spec fn first_fit(free: Seq<Cpu>, line: Seq<usize>, size: nat) -> Option<usize>
    decreases line.len(),
{
    if line.len() == 0 {
        None
    } else if members(free, line[0]).len() >= size {
        Some(line[0])
    } else {
        first_fit(free, line.skip(1), size)
    }
}

/// The free cpus of one node of `line` after another.
pub open spec fn node_by_node(free: Seq<Cpu>, line: Seq<usize>) -> Seq<Cpu>
    decreases line.len(),
{
    if line.len() == 0 {
        Seq::empty()
    } else {
        node_by_node(free, line.drop_last()) + members(free, line.last())
    }
}

/// At most the first `size` of `cpus`.
pub open spec fn at_most(cpus: Seq<Cpu>, size: nat) -> Seq<Cpu> {
    if size < cpus.len() {
        cpus.take(size as int)
    } else {
        cpus
    }
}

/// The `size` cpus to hand out of `free`: off the first node in line that has
/// that many, and otherwise node by node, the fullest first.
pub open spec fn placed(free: Seq<Cpu>, size: nat, placement: Placement) -> Seq<Cpu> {
    match first_fit(free, ranked(free, placement), size) {
        Some(node) => members(free, node).take(size as int),
        None => at_most(node_by_node(free, ranked(free, Placement::Spread)), size),
    }
}

/// `groups` holds the free cpus of each node of `line`.
pub open spec fn grouped(groups: Seq<Vec<Cpu>>, free: Seq<Cpu>, line: Seq<usize>) -> bool {
    &&& groups.len() == line.len()
    &&& forall|i: int| 0 <= i < line.len() ==> #[trigger] groups[i]@ == members(free, line[i])
}

/// A node's members are cpus of that node, and there are some where one was
/// asked for.
pub proof fn lemma_members(cpus: Seq<Cpu>, node: usize)
    ensures
        forall|i: int|
            0 <= i < members(cpus, node).len() ==> (#[trigger] members(cpus, node)[i]).node == node
                && cpus.contains(members(cpus, node)[i]),
        forall|i: int|
            0 <= i < cpus.len() && (#[trigger] cpus[i]).node == node ==> members(
                cpus,
                node,
            ).contains(cpus[i]),
        members(cpus, node).len() <= cpus.len(),
    decreases cpus.len(),
{
    if cpus.len() > 0 {
        let init = cpus.drop_last();
        lemma_members(init, node);
        let rest = members(init, node);
        let m = members(cpus, node);
        assert forall|i: int| 0 <= i < m.len() implies (#[trigger] m[i]).node == node
            && cpus.contains(m[i]) by {
            if i < rest.len() {
                assert(m[i] == rest[i]);
                let k = choose|k: int| 0 <= k < init.len() && init[k] == rest[i];
                assert(cpus[k] == m[i]);
            } else {
                assert(cpus[cpus.len() - 1] == m[i]);
            }
        }
        assert forall|i: int| 0 <= i < cpus.len() && (#[trigger] cpus[i]).node == node implies
            m.contains(cpus[i]) by {
            if i < init.len() {
                assert(init[i] == cpus[i]);
                let k = choose|k: int| 0 <= k < rest.len() && rest[k] == init[i];
                assert(m[k] == cpus[i]);
            } else {
                assert(m[m.len() - 1] == cpus[i]);
            }
        }
    }
}

/// The nodes under some cpus are those with a member, each once.
pub proof fn lemma_nodes_under(cpus: Seq<Cpu>)
    ensures
        order::rising(nodes_under(cpus)),
        forall|n: usize| #[trigger]
            nodes_under(cpus).contains(n) <==> members(cpus, n).len() > 0,
        forall|i: int| 0 <= i < cpus.len() ==> nodes_under(cpus).contains((#[trigger] cpus[i]).node),
{
    let all = cpus.map_values(|c: Cpu| c.node);
    order::lemma_ascending(all);
    assert forall|n: usize| #[trigger]
        nodes_under(cpus).contains(n) <==> members(cpus, n).len() > 0 by {
        lemma_members(cpus, n);
        assert(order::ascending(all).contains(n) <==> all.contains(n));
        if all.contains(n) {
            let i = choose|i: int| 0 <= i < all.len() && all[i] == n;
            assert(members(cpus, n).contains(cpus[i]));
        }
        if members(cpus, n).len() > 0 {
            let c = members(cpus, n)[0];
            let i = choose|i: int| 0 <= i < cpus.len() && cpus[i] == c;
            assert(all[i] == n);
        }
    }
    assert forall|i: int| 0 <= i < cpus.len() implies nodes_under(cpus).contains(
        (#[trigger] cpus[i]).node,
    ) by {
        assert(all[i] == cpus[i].node);
        assert(order::ascending(all).contains(all[i]));
    }
}

/// The free cpus of `node`, in the order they came.
pub fn gather(free: &[Cpu], node: usize) -> (v: Vec<Cpu>)
    ensures
        v@ == members(free@, node),
{
    let mut v: Vec<Cpu> = Vec::new();
    let mut i: usize = 0;
    while i < free.len()
        invariant
            i <= free@.len(),
            v@ == members(free@.take(i as int), node),
        decreases free@.len() - i,
    {
        assert(free@.take(i + 1).drop_last() == free@.take(i as int));
        if free[i].node == node {
            v.push(free[i]);
        }
        i = i + 1;
    }
    assert(free@.take(free@.len() as int) == free@);
    v
}

/// The nodes `cpus` sit on, lowest first.
pub fn nodes_beneath(cpus: &[Cpu]) -> (v: Vec<usize>)
    ensures
        v@ == nodes_under(cpus@),
{
    let mut all: Vec<usize> = Vec::new();
    let mut i: usize = 0;
    while i < cpus.len()
        invariant
            i <= cpus@.len(),
            all@ == cpus@.take(i as int).map_values(|c: Cpu| c.node),
        decreases cpus@.len() - i,
    {
        all.push(cpus[i].node);
        i = i + 1;
        assert(all@ == cpus@.take(i as int).map_values(|c: Cpu| c.node));
    }
    assert(cpus@.take(cpus@.len() as int) == cpus@);
    order::ascend(all.as_slice())
}

/// Whether the node holding `a` comes ahead of the node holding `b`.
fn goes_ahead(a: &Vec<Cpu>, b: &Vec<Cpu>, by: Placement) -> (r: bool)
    requires
        a@.len() > 0,
        b@.len() > 0,
    ensures
        forall|free: Seq<Cpu>, m: usize, n: usize|
            #![trigger members(free, m), members(free, n)]
            a@ == members(free, m) && b@ == members(free, n) ==> r == ahead(free, by, m, n),
{
    let ghost r0 = match by {
        Placement::Pack => a@.len() < b@.len() || (a@.len() == b@.len() && a@[0].node < b@[0].node),
        Placement::Spread => a@.len() > b@.len() || (a@.len() == b@.len() && (a@[0].id < b@[0].id
            || (a@[0].id == b@[0].id && a@[0].node < b@[0].node))),
    };
    assert forall|free: Seq<Cpu>, m: usize, n: usize|
        #![trigger members(free, m), members(free, n)]
        a@ == members(free, m) && b@ == members(free, n) implies r0 == ahead(free, by, m, n) by {
        lemma_members(free, m);
        lemma_members(free, n);
        assert(members(free, m)[0].node == m);
        assert(members(free, n)[0].node == n);
    }
    match by {
        Placement::Pack => a.len() < b.len() || (a.len() == b.len() && a[0].node < b[0].node),
        Placement::Spread => a.len() > b.len() || (a.len() == b.len() && (a[0].id < b[0].id || (
        a[0].id == b[0].id && a[0].node < b[0].node))),
    }
}

/// The free cpus grouped by node, in the order they are handed out.
fn rank(free: &[Cpu], by: Placement) -> (groups: Vec<Vec<Cpu>>)
    ensures
        grouped(groups@, free@, ranked(free@, by)),
{
    let nodes = nodes_beneath(free);
    proof {
        lemma_nodes_under(free@);
        assert forall|k: int| 0 <= k < nodes@.len() implies members(
            free@,
            #[trigger] nodes@[k],
        ).len() > 0 by {
            assert(nodes_under(free@).contains(nodes@[k]));
        }
    }
    let mut groups: Vec<Vec<Cpu>> = Vec::new();
    let ghost mut line: Seq<usize> = Seq::empty();
    let mut i: usize = 0;
    while i < nodes.len()
        invariant
            i <= nodes@.len(),
            nodes@ == nodes_under(free@),
            line == lined_up(free@, by, nodes@.take(i as int)),
            grouped(groups@, free@, line),
            forall|k: int| 0 <= k < nodes@.len() ==> members(free@, #[trigger] nodes@[k]).len() > 0,
            forall|k: int| 0 <= k < line.len() ==> members(free@, #[trigger] line[k]).len() > 0,
        decreases nodes@.len() - i,
    {
        let node = nodes[i];
        let group = gather(free, node);
        let ghost was = groups@;
        let mut at: usize = groups.len();
        assert(line.take(at as int) == line);
        assert(join_line(free@, by, line, node) + line.skip(at as int) == join_line(
            free@,
            by,
            line,
            node,
        ));
        while at > 0 && goes_ahead(&group, &groups[at - 1], by)
            invariant
                at <= groups@.len(),
                groups@ == was,
                grouped(was, free@, line),
                group@ == members(free@, node),
                group@.len() > 0,
                forall|k: int| 0 <= k < line.len() ==> members(free@, #[trigger] line[k]).len() > 0,
                join_line(free@, by, line, node) == join_line(
                    free@,
                    by,
                    line.take(at as int),
                    node,
                ) + line.skip(at as int),
            decreases at,
        {
            proof {
                let t = line.take(at as int);
                assert(groups@[at - 1]@ == members(free@, line[at - 1]));
                assert(t.last() == line[at - 1]);
                assert(t.drop_last() == line.take(at - 1));
                assert(join_line(free@, by, line.take(at - 1), node).push(line[at - 1])
                    + line.skip(at as int) == join_line(free@, by, line.take(at - 1), node)
                    + line.skip(at - 1));
            }
            at = at - 1;
        }
        proof {
            let t = line.take(at as int);
            if at > 0 {
                assert(groups@[at - 1]@ == members(free@, line[at - 1]));
                assert(t.last() == line[at - 1]);
            }
            assert(join_line(free@, by, t, node) == t.push(node));
            let next = join_line(free@, by, line, node);
            assert(next == t.push(node) + line.skip(at as int));
            assert(nodes@.take(i + 1).drop_last() == nodes@.take(i as int));
            assert forall|k: int| 0 <= k < next.len() implies members(
                free@,
                #[trigger] next[k],
            ).len() > 0 by {
                if k < at {
                    assert(next[k] == line[k]);
                } else if k > at {
                    assert(next[k] == line[k - 1]);
                }
            }
            assert forall|k: int| 0 <= k < next.len() implies #[trigger] was.insert(
                at as int,
                group,
            )[k]@ == members(free@, next[k]) by {
                if k < at {
                    assert(next[k] == line[k]);
                    assert(was[k]@ == members(free@, line[k]));
                } else if k > at {
                    assert(next[k] == line[k - 1]);
                    assert(was[k - 1]@ == members(free@, line[k - 1]));
                }
            }
            line = next;
        }
        groups.insert(at, group);
        i = i + 1;
    }
    assert(nodes@.take(nodes@.len() as int) == nodes@);
    groups
}

/// The free cpus grouped by node, smallest group first, and lowest node first
/// among groups of a size so the same request lands the same way twice.
pub fn nodewise(free: &[Cpu]) -> (groups: Vec<Vec<Cpu>>)
    ensures
        grouped(groups@, free@, ranked(free@, Placement::Pack)),
{
    rank(free, Placement::Pack)
}

/// The `size` cpus to hand out, off one memory node wherever one of them has
/// that many free.
pub fn place(free: &[Cpu], size: usize, placement: Placement) -> (v: Vec<Cpu>)
    ensures
        v@ == placed(free@, size as nat, placement),
{
    let groups = match placement {
        Placement::Pack => nodewise(free),
        Placement::Spread => rank(free, Placement::Spread),
    };
    let ghost line = ranked(free@, placement);
    let mut i: usize = 0;
    assert(line.skip(0) == line);
    while i < groups.len()
        invariant
            i <= groups@.len(),
            line == ranked(free@, placement),
            grouped(groups@, free@, line),
            first_fit(free@, line, size as nat) == first_fit(
                free@,
                line.skip(i as int),
                size as nat,
            ),
        decreases groups@.len() - i,
    {
        assert(groups@[i as int]@ == members(free@, line[i as int]));
        assert(line.skip(i as int)[0] == line[i as int]);
        assert(line.skip(i as int).skip(1) == line.skip(i + 1));
        if groups[i].len() >= size {
            return front(&groups[i], size);
        }
        i = i + 1;
    }
    // nothing holds the whole request, so spend the fullest
    // node first and cross as few as the size forces
    let groups = rank(free, Placement::Spread);
    let ghost line = ranked(free@, Placement::Spread);
    let mut out: Vec<Cpu> = Vec::new();
    let mut i: usize = 0;
    while i < groups.len()
        invariant
            i <= groups@.len(),
            grouped(groups@, free@, line),
            out@ == node_by_node(free@, line.take(i as int)),
        decreases groups@.len() - i,
    {
        proof {
            assert(groups@[i as int]@ == members(free@, line[i as int]));
            assert(line.take(i + 1).drop_last() == line.take(i as int));
        }
        out.extend_from_slice(groups[i].as_slice());
        assert(out@ == node_by_node(free@, line.take(i as int)) + members(free@, line[i as int]));
        i = i + 1;
    }
    assert(line.take(line.len() as int) == line);
    out.truncate(size);
    out
}

/// The first `size` cpus of a group.
fn front(group: &Vec<Cpu>, size: usize) -> (v: Vec<Cpu>)
    requires
        size <= group@.len(),
    ensures
        v@ == group@.take(size as int),
{
    let mut v: Vec<Cpu> = Vec::new();
    let mut i: usize = 0;
    while i < size
        invariant
            i <= size <= group@.len(),
            v@ == group@.take(i as int),
        decreases size - i,
    {
        v.push(group[i]);
        i = i + 1;
    }
    v
}

} // verus!
