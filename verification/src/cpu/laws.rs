//! What holds of every placement and every lease.

use vstd::prelude::*;

use crate::cpu::cores;
use crate::cpu::cores::{Cores, Lease};
use crate::cpu::place;
use crate::cpu::place::{Cpu, Placement};
use crate::order;

verus! {

/// How many free cpus the nodes of `line` have between them.
pub open spec fn total(cpus: Seq<Cpu>, line: Seq<usize>) -> nat
    decreases line.len(),
{
    if line.len() == 0 {
        0
    } else {
        total(cpus, line.drop_last()) + place::members(cpus, line.last()).len()
    }
}

/// Whether `line` has every node in the order it is handed out.
spec fn in_order(free: Seq<Cpu>, by: Placement, line: Seq<usize>) -> bool {
    forall|i: int, j: int|
        0 <= i < j < line.len() ==> place::ahead(free, by, #[trigger] line[i], #[trigger] line[j])
}

proof fn lemma_join_line(free: Seq<Cpu>, by: Placement, line: Seq<usize>, node: usize)
    requires
        in_order(free, by, line),
        !line.contains(node),
    ensures
        in_order(free, by, place::join_line(free, by, line, node)),
        place::join_line(free, by, line, node).len() == line.len() + 1,
        forall|n: usize| #[trigger]
            place::join_line(free, by, line, node).contains(n) <==> line.contains(n) || n == node,
    decreases line.len(),
{
    let r = place::join_line(free, by, line, node);
    if line.len() == 0 || !place::ahead(free, by, node, line.last()) {
        assert(r == line.push(node));
        assert forall|n: usize| #[trigger] r.contains(n) <==> line.contains(n) || n == node by {
            order::lemma_but_last(r, n);
            assert(r.drop_last() == line);
        }
        assert forall|i: int, j: int| 0 <= i < j < r.len() implies place::ahead(
            free,
            by,
            #[trigger] r[i],
            #[trigger] r[j],
        ) by {
            if j == line.len() {
                let last = line[line.len() - 1];
                assert(line.contains(last));
                assert(place::ahead(free, by, last, node));
                if i < line.len() - 1 {
                    assert(place::ahead(free, by, line[i], last));
                }
            }
        }
    } else {
        let init = line.drop_last();
        assert forall|n: usize| init.contains(n) implies line.contains(n) by {
            order::lemma_but_last(line, n);
        }
        lemma_join_line(free, by, init, node);
        let s = place::join_line(free, by, init, node);
        assert(r == s.push(line.last()));
        assert forall|n: usize| #[trigger] r.contains(n) <==> line.contains(n) || n == node by {
            order::lemma_but_last(r, n);
            order::lemma_but_last(line, n);
            assert(r.drop_last() == s);
            assert(s.contains(n) <==> init.contains(n) || n == node);
        }
        assert forall|i: int, j: int| 0 <= i < j < r.len() implies place::ahead(
            free,
            by,
            #[trigger] r[i],
            #[trigger] r[j],
        ) by {
            if j == s.len() {
                assert(s.contains(s[i]));
                if init.contains(s[i]) {
                    let k = choose|k: int| 0 <= k < init.len() && init[k] == s[i];
                    assert(line[k] == s[i]);
                    assert(place::ahead(free, by, line[k], line[line.len() - 1]));
                }
            } else {
                assert(r[i] == s[i] && r[j] == s[j]);
            }
        }
    }
}

proof fn lemma_lined_up(free: Seq<Cpu>, by: Placement, nodes: Seq<usize>)
    requires
        nodes.no_duplicates(),
    ensures
        in_order(free, by, place::lined_up(free, by, nodes)),
        place::lined_up(free, by, nodes).len() == nodes.len(),
        forall|n: usize| #[trigger]
            place::lined_up(free, by, nodes).contains(n) <==> nodes.contains(n),
    decreases nodes.len(),
{
    if nodes.len() > 0 {
        let init = nodes.drop_last();
        assert(init.no_duplicates());
        lemma_lined_up(free, by, init);
        let line = place::lined_up(free, by, init);
        if line.contains(nodes.last()) {
            assert(init.contains(nodes.last()));
            let k = choose|k: int| 0 <= k < init.len() && init[k] == nodes.last();
            assert(nodes[k] == nodes[nodes.len() - 1]);
        }
        lemma_join_line(free, by, line, nodes.last());
        assert forall|n: usize| #[trigger]
            place::lined_up(free, by, nodes).contains(n) <==> nodes.contains(n) by {
            order::lemma_but_last(nodes, n);
            assert(line.contains(n) <==> init.contains(n));
        }
    }
}

/// The ranking holds every node with a free cpu once, each ahead of all those
/// behind it.
pub proof fn lemma_ranked(free: Seq<Cpu>, by: Placement)
    ensures
        forall|i: int, j: int|
            0 <= i < j < place::ranked(free, by).len() ==> place::ahead(
                free,
                by,
                #[trigger] place::ranked(free, by)[i],
                #[trigger] place::ranked(free, by)[j],
            ),
        place::ranked(free, by).no_duplicates(),
        forall|n: usize| #[trigger]
            place::ranked(free, by).contains(n) <==> place::members(free, n).len() > 0,
        place::ranked(free, by).len() == place::nodes_under(free).len(),
{
    place::lemma_nodes_under(free);
    let nodes = place::nodes_under(free);
    assert(nodes.no_duplicates());
    lemma_lined_up(free, by, nodes);
    let r = place::ranked(free, by);
    assert forall|i: int, j: int| 0 <= i < r.len() && 0 <= j < r.len() && i != j implies r[i]
        != r[j] by {
        if i < j {
            assert(place::ahead(free, by, r[i], r[j]));
        } else {
            assert(place::ahead(free, by, r[j], r[i]));
        }
    }
    assert forall|n: usize| #[trigger] r.contains(n) <==> place::members(free, n).len() > 0 by {
        assert(nodes.contains(n) <==> place::members(free, n).len() > 0);
    }
}

proof fn lemma_first_fit(free: Seq<Cpu>, line: Seq<usize>, size: nat)
    ensures
        match place::first_fit(free, line, size) {
            Some(n) => exists|k: int|
                0 <= k < line.len() && #[trigger] line[k] == n && place::members(free, n).len()
                    >= size && forall|j: int|
                    0 <= j < k ==> place::members(free, #[trigger] line[j]).len() < size,
            None => forall|j: int|
                0 <= j < line.len() ==> place::members(free, #[trigger] line[j]).len() < size,
        },
    decreases line.len(),
{
    if line.len() > 0 {
        if place::members(free, line[0]).len() >= size {
            assert(line[0] == place::first_fit(free, line, size)->0);
        } else {
            let rest = line.skip(1);
            lemma_first_fit(free, rest, size);
            match place::first_fit(free, rest, size) {
                Some(n) => {
                    let k = choose|k: int|
                        0 <= k < rest.len() && #[trigger] rest[k] == n && place::members(
                            free,
                            n,
                        ).len() >= size && forall|j: int|
                            0 <= j < k ==> place::members(free, #[trigger] rest[j]).len() < size;
                    assert(line[k + 1] == n);
                    assert forall|j: int| 0 <= j < k + 1 implies place::members(
                        free,
                        #[trigger] line[j],
                    ).len() < size by {
                        if j > 0 {
                            assert(rest[j - 1] == line[j]);
                        }
                    }
                },
                None => {
                    assert forall|j: int| 0 <= j < line.len() implies place::members(
                        free,
                        #[trigger] line[j],
                    ).len() < size by {
                        if j > 0 {
                            assert(rest[j - 1] == line[j]);
                        }
                    }
                },
            }
        }
    }
}

proof fn lemma_node_by_node_split(free: Seq<Cpu>, line: Seq<usize>, k: int)
    requires
        0 <= k <= line.len(),
    ensures
        place::node_by_node(free, line) == place::node_by_node(free, line.take(k))
            + place::node_by_node(free, line.skip(k)),
    decreases line.len(),
{
    if k == line.len() {
        assert(line.take(k) == line);
        assert(line.skip(k) == Seq::<usize>::empty());
        assert(place::node_by_node(free, line.skip(k)) == Seq::<Cpu>::empty());
        assert(place::node_by_node(free, line) + Seq::<Cpu>::empty() == place::node_by_node(
            free,
            line,
        ));
    } else {
        let init = line.drop_last();
        lemma_node_by_node_split(free, init, k);
        assert(init.take(k) == line.take(k));
        assert(line.skip(k).drop_last() == init.skip(k));
        assert(line.skip(k).last() == line.last());
        assert(place::node_by_node(free, line.take(k)) + place::node_by_node(free, init.skip(k))
            + place::members(free, line.last()) == place::node_by_node(free, line.take(k)) + (
        place::node_by_node(free, init.skip(k)) + place::members(free, line.last())));
    }
}

proof fn lemma_node_by_node(free: Seq<Cpu>, line: Seq<usize>)
    ensures
        place::node_by_node(free, line).len() == total(free, line),
        forall|i: int|
            0 <= i < place::node_by_node(free, line).len() ==> line.contains(
                (#[trigger] place::node_by_node(free, line)[i]).node,
            ) && free.contains(place::node_by_node(free, line)[i]),
    decreases line.len(),
{
    if line.len() > 0 {
        let init = line.drop_last();
        lemma_node_by_node(free, init);
        place::lemma_members(free, line.last());
        let a = place::node_by_node(free, init);
        let m = place::members(free, line.last());
        let r = place::node_by_node(free, line);
        assert forall|i: int| 0 <= i < r.len() implies line.contains((#[trigger] r[i]).node)
            && free.contains(r[i]) by {
            if i < a.len() {
                assert(r[i] == a[i]);
                order::lemma_but_last(line, a[i].node);
            } else {
                assert(r[i] == m[i - a.len()]);
                assert(line[line.len() - 1] == line.last());
            }
        }
    }
}

proof fn lemma_total_grows(cpus: Seq<Cpu>, line: Seq<usize>)
    requires
        cpus.len() > 0,
        line.no_duplicates(),
    ensures
        total(cpus, line) == total(cpus.drop_last(), line) + if line.contains(cpus.last().node) {
            1nat
        } else {
            0nat
        },
    decreases line.len(),
{
    if line.len() > 0 {
        let init = line.drop_last();
        assert(init.no_duplicates());
        lemma_total_grows(cpus, init);
        order::lemma_but_last(line, cpus.last().node);
        if init.contains(line.last()) {
            let k = choose|k: int| 0 <= k < init.len() && init[k] == line.last();
            assert(line[k] == line[line.len() - 1]);
        }
    }
}

/// Every cpu sits on exactly one node.
pub proof fn lemma_total(cpus: Seq<Cpu>, line: Seq<usize>)
    requires
        line.no_duplicates(),
        forall|i: int| 0 <= i < cpus.len() ==> line.contains((#[trigger] cpus[i]).node),
    ensures
        total(cpus, line) == cpus.len(),
    decreases cpus.len(),
{
    if cpus.len() == 0 {
        lemma_total_empty(line);
        assert(cpus == Seq::<Cpu>::empty());
    } else {
        let init = cpus.drop_last();
        assert forall|i: int| 0 <= i < init.len() implies line.contains(
            (#[trigger] init[i]).node,
        ) by {
            assert(init[i] == cpus[i]);
        }
        lemma_total(init, line);
        lemma_total_grows(cpus, line);
        assert(cpus[cpus.len() - 1] == cpus.last());
    }
}

proof fn lemma_total_empty(line: Seq<usize>)
    ensures
        total(Seq::<Cpu>::empty(), line) == 0,
    decreases line.len(),
{
    if line.len() > 0 {
        lemma_total_empty(line.drop_last());
    }
}

proof fn lemma_members_distinct(cpus: Seq<Cpu>, node: usize)
    requires
        cpus.no_duplicates(),
    ensures
        place::members(cpus, node).no_duplicates(),
    decreases cpus.len(),
{
    if cpus.len() > 0 {
        let init = cpus.drop_last();
        assert(init.no_duplicates());
        lemma_members_distinct(init, node);
        place::lemma_members(init, node);
        let rest = place::members(init, node);
        let m = place::members(cpus, node);
        assert forall|i: int, j: int| 0 <= i < m.len() && 0 <= j < m.len() && i != j implies m[i]
            != m[j] by {
            if i >= rest.len() || j >= rest.len() {
                let k = if i < j { i } else { j };
                assert(m[k] == rest[k]);
                let h = choose|h: int| 0 <= h < init.len() && init[h] == rest[k];
                assert(cpus[h] == m[k]);
                assert(cpus[cpus.len() - 1] == cpus.last());
            }
        }
    }
}

proof fn lemma_node_by_node_distinct(free: Seq<Cpu>, line: Seq<usize>)
    requires
        free.no_duplicates(),
        line.no_duplicates(),
    ensures
        place::node_by_node(free, line).no_duplicates(),
    decreases line.len(),
{
    if line.len() > 0 {
        let init = line.drop_last();
        assert(init.no_duplicates());
        lemma_node_by_node_distinct(free, init);
        lemma_node_by_node(free, init);
        lemma_members_distinct(free, line.last());
        place::lemma_members(free, line.last());
        let a = place::node_by_node(free, init);
        let m = place::members(free, line.last());
        let r = place::node_by_node(free, line);
        assert forall|i: int, j: int| 0 <= i < j < r.len() implies r[i] != r[j] by {
            if i < a.len() && j >= a.len() {
                assert(r[i] == a[i] && r[j] == m[j - a.len()]);
                assert(init.contains(a[i].node));
                let k = choose|k: int| 0 <= k < init.len() && init[k] == a[i].node;
                assert(line[k] == a[i].node && line[line.len() - 1] == line.last());
            } else if i >= a.len() {
                assert(r[i] == m[i - a.len()] && r[j] == m[j - a.len()]);
            } else {
                assert(r[i] == a[i] && r[j] == a[j]);
            }
        }
    }
}

/// A placement hands out cpus that are free, none twice, and as many as were
/// asked for whenever there are that many.
pub proof fn law_placement_is_free(free: Seq<Cpu>, size: nat, placement: Placement)
    requires
        free.no_duplicates(),
    ensures
        place::placed(free, size, placement).len() == if size < free.len() {
            size
        } else {
            free.len()
        },
        place::placed(free, size, placement).no_duplicates(),
        forall|i: int|
            0 <= i < place::placed(free, size, placement).len() ==> free.contains(
                #[trigger] place::placed(free, size, placement)[i],
            ),
{
    let out = place::placed(free, size, placement);
    let line = place::ranked(free, placement);
    lemma_first_fit(free, line, size);
    match place::first_fit(free, line, size) {
        Some(n) => {
            place::lemma_members(free, n);
            lemma_members_distinct(free, n);
            let m = place::members(free, n);
            assert forall|i: int| 0 <= i < out.len() implies free.contains(#[trigger] out[i]) by {
                assert(out[i] == m[i]);
            }
        },
        None => {
            let by_size = place::ranked(free, Placement::Spread);
            lemma_ranked(free, Placement::Spread);
            lemma_node_by_node(free, by_size);
            lemma_node_by_node_distinct(free, by_size);
            place::lemma_nodes_under(free);
            assert forall|i: int| 0 <= i < free.len() implies by_size.contains(
                (#[trigger] free[i]).node,
            ) by {
                assert(place::nodes_under(free).contains(free[i].node));
            }
            lemma_total(free, by_size);
            let all = place::node_by_node(free, by_size);
            assert forall|i: int| 0 <= i < out.len() implies free.contains(#[trigger] out[i]) by {
                assert(out[i] == all[i]);
            }
        },
    }
}

/// A request comes off one node wherever one of them has that many free.
pub proof fn law_one_node(free: Seq<Cpu>, size: nat, placement: Placement, node: usize)
    requires
        0 < size <= place::members(free, node).len(),
    ensures
        place::nodes_under(place::placed(free, size, placement)).len() == 1,
{
    let line = place::ranked(free, placement);
    lemma_ranked(free, placement);
    lemma_first_fit(free, line, size);
    assert(line.contains(node));
    let at = choose|at: int| 0 <= at < line.len() && line[at] == node;
    assert(place::members(free, line[at]).len() >= size);
    let n = place::first_fit(free, line, size)->0;
    let out = place::placed(free, size, placement);
    place::lemma_members(free, n);
    assert forall|i: int| 0 <= i < out.len() implies (#[trigger] out[i]).node == n by {
        assert(out[i] == place::members(free, n)[i]);
    }
    let nodes = place::nodes_under(out);
    place::lemma_nodes_under(out);
    assert(seq![n][0] == n);
    lemma_nodes_among(out, seq![n]);
    assert(nodes.contains(out[0].node));
}

/// A packed request goes on the node with the fewest free cores that still
/// fits, and the lowest of those.
pub proof fn law_pack_takes_the_fewest(free: Seq<Cpu>, size: nat, other: usize)
    requires
        0 < size <= place::members(free, other).len(),
    ensures
        ({
            let node = place::placed(free, size, Placement::Pack)[0].node;
            &&& place::members(free, node).len() >= size
            &&& place::members(free, node).len() < place::members(free, other).len() || (
            place::members(free, node).len() == place::members(free, other).len() && node <= other)
        }),
{
    let by = Placement::Pack;
    let line = place::ranked(free, by);
    lemma_ranked(free, by);
    lemma_first_fit(free, line, size);
    assert(line.contains(other));
    let at = choose|at: int| 0 <= at < line.len() && line[at] == other;
    assert(place::members(free, line[at]).len() >= size);
    let n = place::first_fit(free, line, size)->0;
    let k = choose|k: int|
        0 <= k < line.len() && #[trigger] line[k] == n && place::members(free, n).len() >= size
            && forall|j: int|
            0 <= j < k ==> place::members(free, #[trigger] line[j]).len() < size;
    place::lemma_members(free, n);
    assert(place::placed(free, size, by)[0] == place::members(free, n)[0]);
    assert(k <= at);
    if k < at {
        assert(place::ahead(free, by, line[k], line[at]));
    }
}

/// A spread request goes on the node with the most free cores, and of those
/// with as many the one whose first free cpu is the lowest.
pub proof fn law_spread_takes_the_most(free: Seq<Cpu>, size: nat, other: usize)
    requires
        0 < size <= place::members(free, other).len(),
    ensures
        ({
            let node = place::placed(free, size, Placement::Spread)[0].node;
            &&& place::members(free, node).len() >= place::members(free, other).len()
            &&& place::members(free, node).len() == place::members(free, other).len()
                ==> place::members(free, node)[0].id <= place::members(free, other)[0].id
        }),
{
    let by = Placement::Spread;
    let line = place::ranked(free, by);
    lemma_ranked(free, by);
    lemma_first_fit(free, line, size);
    assert(line.contains(other));
    let at = choose|at: int| 0 <= at < line.len() && line[at] == other;
    assert(place::members(free, line[at]).len() >= size);
    let n = place::first_fit(free, line, size)->0;
    let k = choose|k: int|
        0 <= k < line.len() && #[trigger] line[k] == n && place::members(free, n).len() >= size
            && forall|j: int|
            0 <= j < k ==> place::members(free, #[trigger] line[j]).len() < size;
    place::lemma_members(free, n);
    assert(place::placed(free, size, by)[0] == place::members(free, n)[0]);
    assert(k <= at);
    if k < at {
        assert(place::ahead(free, by, line[k], line[at]));
    }
}

/// Cpus that all sit on nodes of `line` cover no more nodes than it has.
proof fn lemma_nodes_among(cpus: Seq<Cpu>, line: Seq<usize>)
    requires
        forall|i: int| 0 <= i < cpus.len() ==> line.contains((#[trigger] cpus[i]).node),
    ensures
        place::nodes_under(cpus).len() <= line.len(),
{
    let nodes = place::nodes_under(cpus);
    place::lemma_nodes_under(cpus);
    assert(nodes.no_duplicates());
    assert forall|n: usize| nodes.contains(n) implies line.contains(n) by {
        place::lemma_members(cpus, n);
        let c = place::members(cpus, n)[0];
        let i = choose|i: int| 0 <= i < cpus.len() && cpus[i] == c;
        assert(line.contains(cpus[i].node));
    }
    lemma_no_longer(nodes, line);
}

/// A sequence with nothing twice is no longer than one holding all of it.
proof fn lemma_no_longer(a: Seq<usize>, b: Seq<usize>)
    requires
        a.no_duplicates(),
        forall|n: usize| a.contains(n) ==> b.contains(n),
    ensures
        a.len() <= b.len(),
    decreases a.len(),
{
    if a.len() > 0 {
        let x = a.last();
        assert(a[a.len() - 1] == x);
        assert(b.contains(x));
        let k = choose|k: int| 0 <= k < b.len() && b[k] == x;
        let init = a.drop_last();
        let rest = b.remove(k);
        assert forall|n: usize| init.contains(n) implies rest.contains(n) by {
            let i = choose|i: int| 0 <= i < init.len() && init[i] == n;
            assert(a[i] == n && a[i] != a[a.len() - 1]);
            assert(b.contains(n));
            let h = choose|h: int| 0 <= h < b.len() && b[h] == n;
            if h < k {
                assert(rest[h] == n);
            } else {
                assert(rest[h - 1] == n);
            }
        }
        lemma_no_longer(init, rest);
    }
}

/// No nodes have more free cpus between them than as many of the fullest.
proof fn lemma_fullest_first(free: Seq<Cpu>, line: Seq<usize>, some: Seq<usize>)
    requires
        forall|i: int, j: int|
            0 <= i < j < line.len() ==> place::members(free, #[trigger] line[i]).len()
                >= place::members(free, #[trigger] line[j]).len(),
        some.no_duplicates(),
        forall|n: usize| some.contains(n) ==> line.contains(n),
    ensures
        some.len() <= line.len(),
        total(free, some) <= total(free, line.take(some.len() as int)),
    decreases line.len(),
{
    lemma_no_longer(some, line);
    if some.len() == 0 {
    } else {
        let last = line.last();
        let init = line.drop_last();
        let k = some.len() as int;
        assert forall|i: int, j: int| 0 <= i < j < init.len() implies place::members(
            free,
            #[trigger] init[i],
        ).len() >= place::members(free, #[trigger] init[j]).len() by {
            assert(init[i] == line[i] && init[j] == line[j]);
        }
        if some.contains(last) {
            let at = choose|at: int| 0 <= at < some.len() && some[at] == last;
            let rest = some.remove(at);
            assert forall|i: int, j: int|
                0 <= i < rest.len() && 0 <= j < rest.len() && i != j implies rest[i] != rest[j] by {
                let a = if i < at { i } else { i + 1 };
                let b = if j < at { j } else { j + 1 };
                assert(rest[i] == some[a] && rest[j] == some[b]);
            }
            assert forall|n: usize| rest.contains(n) implies init.contains(n) by {
                let i = choose|i: int| 0 <= i < rest.len() && rest[i] == n;
                let a = if i < at { i } else { i + 1 };
                assert(some[a] == n && a != at);
                assert(some.contains(n));
                order::lemma_but_last(line, n);
            }
            lemma_fullest_first(free, init, rest);
            assert(init.take(k - 1) == line.take(k - 1));
            assert(line.take(k).drop_last() == line.take(k - 1));
            assert(line.take(k).last() == line[k - 1]);
            assert(place::members(free, line[k - 1]).len() >= place::members(
                free,
                line[line.len() - 1],
            ).len());
            lemma_total_remove(free, some, at);
        } else {
            assert forall|n: usize| some.contains(n) implies init.contains(n) by {
                order::lemma_but_last(line, n);
            }
            lemma_fullest_first(free, init, some);
            assert(init.take(k) == line.take(k));
        }
    }
}

proof fn lemma_total_remove(free: Seq<Cpu>, line: Seq<usize>, at: int)
    requires
        0 <= at < line.len(),
    ensures
        total(free, line) == total(free, line.remove(at)) + place::members(free, line[at]).len(),
    decreases line.len(),
{
    if at == line.len() - 1 {
        assert(line.remove(at) == line.drop_last());
    } else {
        lemma_total_remove(free, line.drop_last(), at);
        assert(line.remove(at).drop_last() == line.drop_last().remove(at));
        assert(line.remove(at).last() == line.last());
    }
}

proof fn lemma_total_within(some: Seq<Cpu>, free: Seq<Cpu>, line: Seq<usize>)
    requires
        some.no_duplicates(),
        forall|i: int| 0 <= i < some.len() ==> free.contains(#[trigger] some[i]),
    ensures
        total(some, line) <= total(free, line),
    decreases line.len(),
{
    if line.len() > 0 {
        lemma_total_within(some, free, line.drop_last());
        let n = line.last();
        let a = place::members(some, n);
        let b = place::members(free, n);
        lemma_members_distinct(some, n);
        place::lemma_members(some, n);
        place::lemma_members(free, n);
        assert forall|c: Cpu| a.contains(c) implies b.contains(c) by {
            let i = choose|i: int| 0 <= i < a.len() && a[i] == c;
            assert(a[i].node == n && some.contains(a[i]));
            let k = choose|k: int| 0 <= k < some.len() && some[k] == c;
            assert(free.contains(some[k]));
            let h = choose|h: int| 0 <= h < free.len() && free[h] == c;
            assert(b.contains(free[h]));
        }
        a.unique_seq_to_set();
        b.lemma_cardinality_of_set();
        assert(a.to_set().subset_of(b.to_set()));
        vstd::set_lib::lemma_len_subset(a.to_set(), b.to_set());
    }
}

/// A request crosses as few nodes as its size forces: no other `size` of the
/// free cpus sit on fewer.
pub proof fn law_fewest_nodes(free: Seq<Cpu>, size: nat, placement: Placement, other: Seq<Cpu>)
    requires
        other.no_duplicates(),
        forall|i: int| 0 <= i < other.len() ==> free.contains(#[trigger] other[i]),
        size <= other.len(),
    ensures
        place::nodes_under(place::placed(free, size, placement)).len() <= place::nodes_under(
            other,
        ).len(),
{
    let out = place::placed(free, size, placement);
    let line = place::ranked(free, placement);
    let some = place::nodes_under(other);
    place::lemma_nodes_under(other);
    lemma_first_fit(free, line, size);
    match place::first_fit(free, line, size) {
        Some(n) => {
            place::lemma_members(free, n);
            assert forall|i: int| 0 <= i < out.len() implies seq![n].contains(
                (#[trigger] out[i]).node,
            ) by {
                assert(out[i] == place::members(free, n)[i]);
                assert(seq![n][0] == n);
            }
            lemma_nodes_among(out, seq![n]);
            if size == 0 {
                lemma_nodes_among(out, Seq::<usize>::empty());
            } else {
                assert(some.contains(other[0].node));
            }
        },
        None => {
            let by_size = place::ranked(free, Placement::Spread);
            lemma_ranked(free, Placement::Spread);
            assert(some.no_duplicates());
            assert forall|n: usize| some.contains(n) implies by_size.contains(n) by {
                place::lemma_members(other, n);
                place::lemma_members(free, n);
                let c = place::members(other, n)[0];
                let i = choose|i: int| 0 <= i < other.len() && other[i] == c;
                assert(free.contains(other[i]));
                let k = choose|k: int| 0 <= k < free.len() && free[k] == c;
                assert(place::members(free, n).contains(free[k]));
            }
            assert forall|i: int, j: int| 0 <= i < j < by_size.len() implies place::members(
                free,
                #[trigger] by_size[i],
            ).len() >= place::members(free, #[trigger] by_size[j]).len() by {
                assert(place::ahead(free, Placement::Spread, by_size[i], by_size[j]));
            }
            lemma_fullest_first(free, by_size, some);
            lemma_total(other, some);
            lemma_total_within(other, free, some);
            let k = some.len() as int;
            let few = by_size.take(k);
            lemma_node_by_node_split(free, by_size, k);
            lemma_node_by_node(free, few);
            let prefix = place::node_by_node(free, few);
            let all = place::node_by_node(free, by_size);
            assert(size <= prefix.len());
            assert forall|i: int| 0 <= i < out.len() implies few.contains(
                (#[trigger] out[i]).node,
            ) by {
                assert(out[i] == all[i]);
                assert(all[i] == prefix[i]);
            }
            lemma_nodes_among(out, few);
        },
    }
}

proof fn lemma_shelve(line: Seq<Cpu>, cpu: Cpu)
    requires
        order::rising(place::ids(line)),
        !place::ids(line).contains(cpu.id),
    ensures
        order::rising(place::ids(cores::shelve(line, cpu))),
        cores::shelve(line, cpu).len() == line.len() + 1,
        forall|c: Cpu| #[trigger]
            cores::shelve(line, cpu).contains(c) <==> line.contains(c) || c == cpu,
    decreases line.len(),
{
    let r = cores::shelve(line, cpu);
    let before = place::ids(line);
    if line.len() == 0 || line.last().id <= cpu.id {
        assert(r == line.push(cpu));
        assert forall|c: Cpu| #[trigger] r.contains(c) <==> line.contains(c) || c == cpu by {
            if line.contains(c) {
                let i = choose|i: int| 0 <= i < line.len() && line[i] == c;
                assert(r[i] == c);
            }
            assert(r[line.len() as int] == cpu);
        }
        assert forall|i: int, j: int| 0 <= i < j < place::ids(r).len() implies place::ids(r)[i]
            < place::ids(r)[j] by {
            if j == line.len() {
                assert(before[line.len() - 1] == line.last().id);
                assert(before.contains(line.last().id));
                assert(before[i] <= before[line.len() - 1]);
            } else {
                assert(before[i] < before[j]);
            }
        }
    } else {
        let init = line.drop_last();
        assert forall|i: int, j: int| 0 <= i < j < place::ids(init).len() implies place::ids(
            init,
        )[i] < place::ids(init)[j] by {
            assert(before[i] < before[j]);
        }
        if place::ids(init).contains(cpu.id) {
            let i = choose|i: int| 0 <= i < init.len() && place::ids(init)[i] == cpu.id;
            assert(before[i] == cpu.id);
        }
        lemma_shelve(init, cpu);
        let s = cores::shelve(init, cpu);
        assert(r == s.push(line.last()));
        assert forall|c: Cpu| #[trigger] r.contains(c) <==> line.contains(c) || c == cpu by {
            if r.contains(c) {
                let i = choose|i: int| 0 <= i < r.len() && r[i] == c;
                if i < s.len() {
                    assert(s[i] == c);
                    assert(s.contains(c));
                    if init.contains(c) {
                        let k = choose|k: int| 0 <= k < init.len() && init[k] == c;
                        assert(line[k] == c);
                    }
                } else {
                    assert(line[line.len() - 1] == c);
                }
            }
            if line.contains(c) || c == cpu {
                if c == line.last() {
                    assert(r[s.len() as int] == c);
                } else {
                    if line.contains(c) {
                        let k = choose|k: int| 0 <= k < line.len() && line[k] == c;
                        assert(init[k] == c);
                    }
                    assert(s.contains(c));
                    let i = choose|i: int| 0 <= i < s.len() && s[i] == c;
                    assert(r[i] == c);
                }
            }
        }
        assert forall|i: int, j: int| 0 <= i < j < place::ids(r).len() implies place::ids(r)[i]
            < place::ids(r)[j] by {
            if j == s.len() {
                assert(s.contains(s[i]));
                if init.contains(s[i]) {
                    let k = choose|k: int| 0 <= k < init.len() && init[k] == s[i];
                    assert(before[k] < before[line.len() - 1]);
                }
            } else {
                assert(place::ids(s)[i] < place::ids(s)[j]);
            }
        }
    }
}

/// Cpus with numbers of their own come out by number with none lost and none
/// added.
pub proof fn lemma_by_id(cpus: Seq<Cpu>)
    requires
        place::ids(cpus).no_duplicates(),
    ensures
        order::rising(place::ids(cores::by_id(cpus))),
        cores::by_id(cpus).len() == cpus.len(),
        forall|c: Cpu| #[trigger] cores::by_id(cpus).contains(c) <==> cpus.contains(c),
    decreases cpus.len(),
{
    if cpus.len() > 0 {
        let init = cpus.drop_last();
        let all = place::ids(cpus);
        assert forall|i: int, j: int|
            0 <= i < init.len() && 0 <= j < init.len() && i != j implies place::ids(init)[i]
            != place::ids(init)[j] by {
            assert(all[i] != all[j]);
        }
        lemma_by_id(init);
        let line = cores::by_id(init);
        if place::ids(line).contains(cpus.last().id) {
            let i = choose|i: int| 0 <= i < line.len() && place::ids(line)[i] == cpus.last().id;
            assert(line.contains(line[i]));
            assert(init.contains(line[i]));
            let k = choose|k: int| 0 <= k < init.len() && init[k] == line[i];
            assert(all[k] == all[cpus.len() - 1]);
        }
        lemma_shelve(line, cpus.last());
        assert forall|c: Cpu| #[trigger] cores::by_id(cpus).contains(c) <==> cpus.contains(c) by {
            assert(line.contains(c) <==> init.contains(c));
            if init.contains(c) {
                let k = choose|k: int| 0 <= k < init.len() && init[k] == c;
                assert(cpus[k] == c);
            }
            if cpus.contains(c) {
                let k = choose|k: int| 0 <= k < cpus.len() && cpus[k] == c;
                if k < init.len() {
                    assert(init[k] == c);
                }
            }
            assert(cpus[cpus.len() - 1] == cpus.last());
        }
    }
}

proof fn lemma_untaken_distinct(pool: Seq<Cpu>, taken: Seq<usize>)
    requires
        pool.no_duplicates(),
    ensures
        cores::untaken(pool, taken).no_duplicates(),
    decreases pool.len(),
{
    if pool.len() > 0 {
        let init = pool.drop_last();
        assert(init.no_duplicates());
        lemma_untaken_distinct(init, taken);
        cores::lemma_untaken(init, taken);
        let rest = cores::untaken(init, taken);
        let all = cores::untaken(pool, taken);
        assert forall|i: int, j: int| 0 <= i < j < all.len() implies all[i] != all[j] by {
            if j == rest.len() {
                assert(rest.contains(rest[i]));
                let k = choose|k: int| 0 <= k < init.len() && init[k] == rest[i];
                assert(pool[k] == all[i] && pool[pool.len() - 1] == all[j]);
            } else {
                assert(all[i] == rest[i] && all[j] == rest[j]);
            }
        }
    }
}

/// Distinct cpus of a pool that numbers each once have distinct numbers.
proof fn lemma_ids_distinct(pool: Seq<Cpu>, some: Seq<Cpu>)
    requires
        place::ids(pool).no_duplicates(),
        some.no_duplicates(),
        forall|i: int| 0 <= i < some.len() ==> pool.contains(#[trigger] some[i]),
    ensures
        place::ids(some).no_duplicates(),
{
    assert forall|i: int, j: int| 0 <= i < some.len() && 0 <= j < some.len() && i != j implies
        place::ids(some)[i] != place::ids(some)[j] by {
        let a = choose|a: int| 0 <= a < pool.len() && pool[a] == some[i];
        let b = choose|b: int| 0 <= b < pool.len() && pool[b] == some[j];
        assert(pool.contains(some[i]) && pool.contains(some[j]));
        assert(a != b);
        assert(place::ids(pool)[a] != place::ids(pool)[b]);
    }
}

/// The cpus a pool offers are in the pool, not taken, and each its own.
proof fn lemma_offer(pool: &Cores, size: nat)
    requires
        pool.well_formed(),
        size <= pool.free().len(),
    ensures
        pool.offer(size).len() == size,
        place::ids(pool.offer(size)).no_duplicates(),
        forall|c: Cpu|
            pool.offer(size).contains(c) ==> pool.pool@.contains(c) && !pool.taken@.contains(c.id),
{
    let free = pool.free();
    let all = place::ids(pool.pool@);
    assert forall|i: int, j: int|
        0 <= i < pool.pool@.len() && 0 <= j < pool.pool@.len() && i != j implies pool.pool@[i]
        != pool.pool@[j] by {
        assert(all[i] != all[j]);
    }
    lemma_untaken_distinct(pool.pool@, pool.taken@);
    cores::lemma_untaken(pool.pool@, pool.taken@);
    law_placement_is_free(free, size, pool.placement);
    let out = pool.offer(size);
    assert forall|c: Cpu| out.contains(c) implies pool.pool@.contains(c) && !pool.taken@.contains(
        c.id,
    ) by {
        let i = choose|i: int| 0 <= i < out.len() && out[i] == c;
        assert(free.contains(out[i]));
    }
    assert forall|i: int| 0 <= i < out.len() implies pool.pool@.contains(#[trigger] out[i]) by {
        assert(free.contains(out[i]));
    }
    lemma_ids_distinct(pool.pool@, out);
}

/// A lease holds as many cpus as were asked for, lowest first, every one of
/// them in the pool and none of them held already.
pub proof fn law_lease_is_free(pool: &Cores, size: nat, lease: Lease)
    requires
        pool.well_formed(),
        size <= pool.free().len(),
        pool.grants(size, lease),
    ensures
        lease.cpus@.len() == size,
        order::rising(lease.cpus@),
        forall|cpu: usize|
            lease.cpus@.contains(cpu) ==> place::ids(pool.pool@).contains(cpu)
                && !pool.taken@.contains(cpu),
{
    lemma_offer(pool, size);
    let out = pool.offer(size);
    lemma_by_id(out);
    let line = cores::by_id(out);
    assert forall|cpu: usize| lease.cpus@.contains(cpu) implies place::ids(pool.pool@).contains(cpu)
        && !pool.taken@.contains(cpu) by {
        let i = choose|i: int| 0 <= i < lease.cpus@.len() && lease.cpus@[i] == cpu;
        assert(line.contains(line[i]));
        assert(out.contains(line[i]));
        let k = choose|k: int| 0 <= k < pool.pool@.len() && pool.pool@[k] == line[i];
        assert(place::ids(pool.pool@)[k] == cpu);
    }
}

/// Granting a lease keeps the books straight.
pub proof fn law_lease_keeps_the_pool(pool: &Cores, size: nat, lease: Lease, after: &Cores)
    requires
        pool.well_formed(),
        size <= pool.free().len(),
        pool.grants(size, lease),
        after.same_but_taken(pool),
        after.taken@ == pool.taken@ + lease.cpus@,
    ensures
        after.well_formed(),
{
    law_lease_is_free(pool, size, lease);
    let a = pool.taken@;
    let b = lease.cpus@;
    let t = after.taken@;
    assert forall|i: int, j: int| 0 <= i < j < t.len() implies t[i] != t[j] by {
        if i < a.len() && j >= a.len() {
            assert(b.contains(b[j - a.len()]));
            assert(a.contains(a[i]));
        } else if i >= a.len() {
            assert(b[i - a.len()] < b[j - a.len()]);
        }
    }
    assert forall|i: int| 0 <= i < t.len() implies place::ids(after.pool@).contains(
        #[trigger] t[i],
    ) by {
        if i < a.len() {
            assert(t[i] == a[i]);
        } else {
            assert(b.contains(b[i - a.len()]));
        }
    }
}

/// Two leases held at once never share a core.
pub proof fn law_two_leases_never_share(
    pool: &Cores,
    size: nat,
    lease: Lease,
    after: &Cores,
    size2: nat,
    lease2: Lease,
)
    requires
        pool.well_formed(),
        size <= pool.free().len(),
        pool.grants(size, lease),
        after.same_but_taken(pool),
        after.taken@ == pool.taken@ + lease.cpus@,
        size2 <= after.free().len(),
        after.grants(size2, lease2),
    ensures
        forall|cpu: usize| !(lease.cpus@.contains(cpu) && lease2.cpus@.contains(cpu)),
{
    law_lease_keeps_the_pool(pool, size, lease, after);
    law_lease_is_free(after, size2, lease2);
    assert forall|cpu: usize| !(lease.cpus@.contains(cpu) && lease2.cpus@.contains(cpu)) by {
        if lease.cpus@.contains(cpu) {
            let i = choose|i: int| 0 <= i < lease.cpus@.len() && lease.cpus@[i] == cpu;
            assert(after.taken@[pool.taken@.len() + i] == cpu);
        }
    }
}

/// Handing numbers back leaves those that were not among them.
pub proof fn lemma_without(taken: Seq<usize>, back: Seq<usize>)
    ensures
        forall|x: usize| #[trigger]
            cores::without(taken, back).contains(x) <==> taken.contains(x) && !back.contains(x),
        taken.no_duplicates() ==> cores::without(taken, back).no_duplicates(),
        (forall|x: usize| taken.contains(x) ==> !back.contains(x)) ==> cores::without(taken, back)
            == taken,
        (forall|x: usize| taken.contains(x) ==> back.contains(x)) ==> cores::without(
            taken,
            back,
        ).len() == 0,
    decreases taken.len(),
{
    if taken.len() > 0 {
        let init = taken.drop_last();
        lemma_without(init, back);
        let rest = cores::without(init, back);
        let all = cores::without(taken, back);
        assert forall|x: usize| #[trigger]
            all.contains(x) <==> taken.contains(x) && !back.contains(x) by {
            order::lemma_but_last(taken, x);
            assert(rest.contains(x) <==> init.contains(x) && !back.contains(x));
            if !back.contains(taken.last()) {
                order::lemma_but_last(all, x);
                assert(all.drop_last() == rest);
            }
        }
        if taken.no_duplicates() {
            assert(init.no_duplicates());
            assert forall|i: int, j: int| 0 <= i < j < all.len() implies all[i] != all[j] by {
                if j == rest.len() {
                    assert(rest.contains(rest[i]));
                    assert(init.contains(rest[i]));
                    let k = choose|k: int| 0 <= k < init.len() && init[k] == rest[i];
                    assert(taken[k] != taken[taken.len() - 1]);
                } else {
                    assert(all[i] == rest[i] && all[j] == rest[j]);
                }
            }
        }
        if forall|x: usize| taken.contains(x) ==> !back.contains(x) {
            order::lemma_but_last(taken, taken.last());
            assert forall|x: usize| init.contains(x) implies !back.contains(x) by {
                order::lemma_but_last(taken, x);
            }
            assert(all == init.push(taken.last()));
            assert(all == taken);
        }
        if forall|x: usize| taken.contains(x) ==> back.contains(x) {
            order::lemma_but_last(taken, taken.last());
            assert forall|x: usize| init.contains(x) implies back.contains(x) by {
                order::lemma_but_last(taken, x);
            }
        }
    }
}

proof fn lemma_without_split(a: Seq<usize>, b: Seq<usize>, back: Seq<usize>)
    ensures
        cores::without(a + b, back) == cores::without(a, back) + cores::without(b, back),
    decreases b.len(),
{
    if b.len() == 0 {
        assert(a + b == a);
        assert(cores::without(a, back) + cores::without(b, back) == cores::without(a, back));
    } else {
        let init = b.drop_last();
        lemma_without_split(a, init, back);
        assert((a + b).drop_last() == a + init);
        assert((a + b).last() == b.last());
        assert(cores::without(a + b, back) == cores::without(a, back) + cores::without(b, back));
    }
}

/// Releasing a lease puts the pool back as it was before it was granted.
pub proof fn law_release_undoes_a_lease(pool: &Cores, size: nat, lease: Lease)
    requires
        pool.well_formed(),
        size <= pool.free().len(),
        pool.grants(size, lease),
    ensures
        cores::without(pool.taken@ + lease.cpus@, lease.cpus@) == pool.taken@,
{
    law_lease_is_free(pool, size, lease);
    lemma_without_split(pool.taken@, lease.cpus@, lease.cpus@);
    lemma_without(pool.taken@, lease.cpus@);
    lemma_without(lease.cpus@, lease.cpus@);
    assert(cores::without(lease.cpus@, lease.cpus@) == Seq::<usize>::empty());
    assert(pool.taken@ + Seq::<usize>::empty() == pool.taken@);
}

/// Releasing keeps the books straight, whatever is handed back.
pub proof fn law_release_keeps_the_pool(pool: &Cores, back: Seq<usize>, after: &Cores)
    requires
        pool.well_formed(),
        after.same_but_taken(pool),
        after.taken@ == cores::without(pool.taken@, back),
    ensures
        after.well_formed(),
        forall|cpu: usize| back.contains(cpu) ==> !after.taken@.contains(cpu),
{
    lemma_without(pool.taken@, back);
    assert forall|i: int| 0 <= i < after.taken@.len() implies place::ids(after.pool@).contains(
        #[trigger] after.taken@[i],
    ) by {
        let x = after.taken@[i];
        assert(after.taken@.contains(x));
        assert(pool.taken@.contains(x));
        let k = choose|k: int| 0 <= k < pool.taken@.len() && pool.taken@[k] == x;
        assert(place::ids(pool.pool@).contains(pool.taken@[k]));
    }
    assert forall|cpu: usize| back.contains(cpu) implies !after.taken@.contains(cpu) by {}
}

/// Whether the leases of `live` are all out on `pool` at once: everything they
/// hold is taken, and no two of them hold the same cpu.
pub open spec fn out_on(pool: &Cores, live: Seq<Seq<usize>>) -> bool {
    &&& forall|i: int| 0 <= i < live.len() ==> (#[trigger] live[i]).no_duplicates()
    &&& forall|i: int, cpu: usize|
        0 <= i < live.len() && #[trigger] live[i].contains(cpu) ==> pool.taken@.contains(cpu)
    &&& forall|i: int, j: int, cpu: usize|
        0 <= i < j < live.len() && #[trigger] live[i].contains(cpu) ==> !#[trigger] live[j].contains(
            cpu,
        )
}

/// However many leases are out, one more shares no core with any of them.
pub proof fn law_live_leases_stay_apart(
    pool: &Cores,
    live: Seq<Seq<usize>>,
    size: nat,
    lease: Lease,
    after: &Cores,
)
    requires
        pool.well_formed(),
        out_on(pool, live),
        size <= pool.free().len(),
        pool.grants(size, lease),
        after.same_but_taken(pool),
        after.taken@ == pool.taken@ + lease.cpus@,
    ensures
        after.well_formed(),
        out_on(after, live.push(lease.cpus@)),
{
    law_lease_is_free(pool, size, lease);
    law_lease_keeps_the_pool(pool, size, lease, after);
    let all = live.push(lease.cpus@);
    let n = live.len() as int;
    let held = pool.taken@;
    assert forall|i: int, cpu: usize| 0 <= i < all.len() && #[trigger] all[i].contains(
        cpu,
    ) implies after.taken@.contains(cpu) by {
        if i < n {
            assert(live[i].contains(cpu));
            let k = choose|k: int| 0 <= k < held.len() && held[k] == cpu;
            assert(after.taken@[k] == cpu);
        } else {
            let k = choose|k: int| 0 <= k < lease.cpus@.len() && lease.cpus@[k] == cpu;
            assert(after.taken@[held.len() + k] == cpu);
        }
    }
    assert forall|i: int, j: int, cpu: usize|
        0 <= i < j < all.len() && #[trigger] all[i].contains(cpu) implies !#[trigger] all[j].contains(
        cpu,
    ) by {
        assert(live[i].contains(cpu));
        if j < n {
            assert(all[j] == live[j]);
        }
    }
    assert forall|i: int| 0 <= i < all.len() implies (#[trigger] all[i]).no_duplicates() by {
        if i < n {
            assert(all[i] == live[i]);
        }
    }
}

/// Together, what is taken and what is free are the pool.
proof fn lemma_taken_and_free(pool: &Cores)
    requires
        pool.well_formed(),
    ensures
        pool.free().len() + pool.taken@.len() == pool.pool@.len(),
{
    let all = place::ids(pool.pool@);
    let free = pool.free();
    let spare = place::ids(free);
    let taken = pool.taken@;
    assert forall|i: int, j: int|
        0 <= i < pool.pool@.len() && 0 <= j < pool.pool@.len() && i != j implies pool.pool@[i]
        != pool.pool@[j] by {
        assert(all[i] != all[j]);
    }
    lemma_untaken_distinct(pool.pool@, taken);
    cores::lemma_untaken(pool.pool@, taken);
    assert forall|i: int| 0 <= i < free.len() implies pool.pool@.contains(#[trigger] free[i]) by {
        assert(free.contains(free[i]));
    }
    lemma_ids_distinct(pool.pool@, free);
    assert forall|x: usize| spare.to_set().contains(x) implies !taken.to_set().contains(x) by {
        let i = choose|i: int| 0 <= i < spare.len() && spare[i] == x;
        assert(free.contains(free[i]));
    }
    assert forall|x: usize|
        all.to_set().contains(x) <==> (spare.to_set() + taken.to_set()).contains(x) by {
        if all.contains(x) && !taken.contains(x) {
            let i = choose|i: int| 0 <= i < all.len() && all[i] == x;
            assert(pool.pool@.contains(pool.pool@[i]));
            assert(free.contains(pool.pool@[i]));
            let k = choose|k: int| 0 <= k < free.len() && free[k] == pool.pool@[i];
            assert(spare[k] == x);
        }
        if spare.contains(x) {
            let i = choose|i: int| 0 <= i < spare.len() && spare[i] == x;
            assert(pool.pool@.contains(free[i]));
            let k = choose|k: int| 0 <= k < pool.pool@.len() && pool.pool@[k] == free[i];
            assert(all[k] == x);
        }
        if taken.contains(x) {
            let i = choose|i: int| 0 <= i < taken.len() && taken[i] == x;
            assert(all.contains(taken[i]));
        }
    }
    assert(all.to_set() == spare.to_set() + taken.to_set());
    all.unique_seq_to_set();
    spare.unique_seq_to_set();
    taken.unique_seq_to_set();
    vstd::set_lib::lemma_set_disjoint_lens(spare.to_set(), taken.to_set());
}

/// Handing back numbers that are all taken leaves that many fewer taken.
proof fn lemma_without_len(taken: Seq<usize>, back: Seq<usize>)
    requires
        taken.no_duplicates(),
        back.no_duplicates(),
        forall|x: usize| #[trigger] back.contains(x) ==> taken.contains(x),
    ensures
        cores::without(taken, back).len() + back.len() == taken.len(),
{
    lemma_without(taken, back);
    let rest = cores::without(taken, back);
    assert(taken.to_set() == rest.to_set() + back.to_set()) by {
        assert forall|x: usize|
            taken.to_set().contains(x) <==> (rest.to_set() + back.to_set()).contains(x) by {
            assert(rest.contains(x) <==> taken.contains(x) && !back.contains(x));
        }
    }
    assert(rest.to_set().disjoint(back.to_set())) by {
        assert forall|x: usize| rest.to_set().contains(x) implies !back.to_set().contains(x) by {
            assert(rest.contains(x));
        }
    }
    taken.unique_seq_to_set();
    rest.unique_seq_to_set();
    back.unique_seq_to_set();
    vstd::set_lib::lemma_set_disjoint_lens(rest.to_set(), back.to_set());
}

/// Releasing one of the leases that are out frees exactly its own cpus,
/// whatever has been taken since: the others stay held and stay apart, and a
/// request as large as the one released can be met again.
pub proof fn law_releasing_one_leaves_the_others(
    pool: &Cores,
    live: Seq<Seq<usize>>,
    at: int,
    after: &Cores,
)
    requires
        pool.well_formed(),
        out_on(pool, live),
        0 <= at < live.len(),
        after.same_but_taken(pool),
        after.taken@ == cores::without(pool.taken@, live[at]),
    ensures
        after.well_formed(),
        out_on(after, live.remove(at)),
        forall|cpu: usize| #[trigger]
            after.taken@.contains(cpu) <==> pool.taken@.contains(cpu) && !live[at].contains(cpu),
        forall|cpu: Cpu| #[trigger]
            after.free().contains(cpu) <==> pool.free().contains(cpu) || (pool.pool@.contains(cpu)
                && live[at].contains(cpu.id)),
        after.free().len() == pool.free().len() + live[at].len(),
{
    let back = live[at];
    let left = live.remove(at);
    law_release_keeps_the_pool(pool, back, after);
    lemma_without(pool.taken@, back);
    lemma_without_len(pool.taken@, back);
    lemma_taken_and_free(pool);
    lemma_taken_and_free(after);
    cores::lemma_untaken(pool.pool@, pool.taken@);
    cores::lemma_untaken(after.pool@, after.taken@);
    assert forall|cpu: Cpu| #[trigger]
        after.free().contains(cpu) <==> pool.free().contains(cpu) || (pool.pool@.contains(cpu)
            && back.contains(cpu.id)) by {
        assert(after.taken@.contains(cpu.id) <==> pool.taken@.contains(cpu.id) && !back.contains(
            cpu.id,
        ));
    }
    assert forall|i: int, cpu: usize| 0 <= i < left.len() && #[trigger] left[i].contains(
        cpu,
    ) implies after.taken@.contains(cpu) by {
        let k = if i < at {
            i
        } else {
            i + 1
        };
        assert(left[i] == live[k]);
        assert(live[k].contains(cpu));
        assert(!back.contains(cpu)) by {
            if back.contains(cpu) {
                assert(live[at].contains(cpu));
            }
        }
    }
    assert forall|i: int, j: int, cpu: usize|
        0 <= i < j < left.len() && #[trigger] left[i].contains(cpu) implies !#[trigger] left[j].contains(
        cpu,
    ) by {
        let a = if i < at {
            i
        } else {
            i + 1
        };
        let b = if j < at {
            j
        } else {
            j + 1
        };
        assert(left[i] == live[a] && left[j] == live[b]);
        assert(live[a].contains(cpu));
    }
    assert forall|i: int| 0 <= i < left.len() implies (#[trigger] left[i]).no_duplicates() by {
        if i < at {
            assert(left[i] == live[i]);
        } else {
            assert(left[i] == live[i + 1]);
        }
    }
}

/// A carved pool is as large as was asked for, lies inside the pool it was
/// carved from, and is itself a pool to lease from and carve.
pub proof fn law_carve_stays_inside(pool: &Cores, size: nat, carved: &Cores)
    requires
        pool.well_formed(),
        carved.pool@ == cores::by_id(place::placed(pool.pool@, size, pool.placement)),
        carved.taken@ == Seq::<usize>::empty(),
    ensures
        carved.well_formed(),
        carved.pool@.len() == if size < pool.pool@.len() {
            size
        } else {
            pool.pool@.len()
        },
        forall|c: Cpu| carved.pool@.contains(c) ==> pool.pool@.contains(c),
{
    let all = place::ids(pool.pool@);
    assert forall|i: int, j: int|
        0 <= i < pool.pool@.len() && 0 <= j < pool.pool@.len() && i != j implies pool.pool@[i]
        != pool.pool@[j] by {
        assert(all[i] != all[j]);
    }
    law_placement_is_free(pool.pool@, size, pool.placement);
    let out = place::placed(pool.pool@, size, pool.placement);
    lemma_ids_distinct(pool.pool@, out);
    lemma_by_id(out);
    assert(place::ids(carved.pool@).no_duplicates());
    assert forall|c: Cpu| carved.pool@.contains(c) implies pool.pool@.contains(c) by {
        assert(out.contains(c));
        let i = choose|i: int| 0 <= i < out.len() && out[i] == c;
        assert(pool.pool@.contains(out[i]));
    }
}

/// The nodes of some cpus are named lowest first, each that one of them sits on
/// and no other, and none is on a machine with one node.
pub proof fn law_nodes_are_those_sat_on(numa: bool, cpus: Seq<Cpu>)
    ensures
        !numa ==> cores::named_nodes(numa, cpus).len() == 0,
        numa ==> order::rising(cores::named_nodes(numa, cpus)) && forall|node: usize| #[trigger]
            cores::named_nodes(numa, cpus).contains(node) <==> exists|i: int|
                0 <= i < cpus.len() && (#[trigger] cpus[i]).node == node,
{
    if numa {
        let nodes = cores::named_nodes(numa, cpus);
        place::lemma_nodes_under(cpus);
        assert forall|node: usize| #[trigger] nodes.contains(node) <==> exists|i: int|
            0 <= i < cpus.len() && (#[trigger] cpus[i]).node == node by {
            place::lemma_members(cpus, node);
            if nodes.contains(node) {
                let c = place::members(cpus, node)[0];
                assert(cpus.contains(c));
                let i = choose|i: int| 0 <= i < cpus.len() && cpus[i] == c;
                assert(cpus[i].node == node);
            }
        }
    }
}

/// On a machine with more than one node, a lease names the nodes its cpus sit
/// on, lowest first: every one of them, however few of its cpus are on it, and
/// no other. On a machine with one node it names none.
pub proof fn law_a_lease_names_its_nodes(pool: &Cores, size: nat, lease: Lease)
    requires
        pool.well_formed(),
        size <= pool.free().len(),
        pool.grants(size, lease),
    ensures
        !pool.numa ==> lease.nodes@.len() == 0,
        pool.numa ==> cores::sat_on(pool.pool@, lease.cpus@, lease.nodes@),
{
    let out = pool.offer(size);
    let line = cores::by_id(out);
    lemma_offer(pool, size);
    lemma_by_id(out);
    law_nodes_are_those_sat_on(pool.numa, out);
    if pool.numa {
        let all = pool.pool@;
        assert forall|node: usize| #[trigger] lease.nodes@.contains(node) <==> exists|i: int|
            0 <= i < all.len() && (#[trigger] all[i]).node == node && lease.cpus@.contains(
                all[i].id,
            ) by {
            if lease.nodes@.contains(node) {
                let k = choose|k: int| 0 <= k < out.len() && (#[trigger] out[k]).node == node;
                assert(out.contains(out[k]));
                assert(line.contains(out[k]));
                let h = choose|h: int| 0 <= h < line.len() && line[h] == out[k];
                assert(lease.cpus@[h] == out[k].id);
                let i = choose|i: int| 0 <= i < all.len() && all[i] == out[k];
                assert(all[i].node == node && lease.cpus@.contains(all[i].id));
            }
            if exists|i: int|
                0 <= i < all.len() && (#[trigger] all[i]).node == node && lease.cpus@.contains(
                    all[i].id,
                ) {
                let i = choose|i: int|
                    0 <= i < all.len() && (#[trigger] all[i]).node == node && lease.cpus@.contains(
                        all[i].id,
                    );
                let h = choose|h: int| 0 <= h < lease.cpus@.len() && lease.cpus@[h] == all[i].id;
                assert(line.contains(line[h]));
                assert(out.contains(line[h]));
                let k = choose|k: int| 0 <= k < out.len() && out[k] == line[h];
                let j = choose|j: int| 0 <= j < all.len() && all[j] == line[h];
                assert(place::ids(all)[i] == place::ids(all)[j]);
                assert(i == j);
                assert(out[k].node == node);
            }
        }
    }
}

/// On a machine with more than one node, a whole pool names the nodes its cpus
/// sit on, and otherwise none.
pub proof fn law_a_pool_names_its_nodes(pool: &Cores)
    ensures
        !pool.numa ==> cores::named_nodes(pool.numa, pool.pool@).len() == 0,
        pool.numa ==> cores::sat_on(
            pool.pool@,
            place::ids(pool.pool@),
            cores::named_nodes(pool.numa, pool.pool@),
        ),
{
    let all = pool.pool@;
    let nodes = cores::named_nodes(pool.numa, all);
    law_nodes_are_those_sat_on(pool.numa, all);
    assert forall|i: int| 0 <= i < all.len() implies place::ids(all).contains(
        (#[trigger] all[i]).id,
    ) by {
        assert(place::ids(all)[i] == all[i].id);
    }
    if pool.numa {
        assert forall|node: usize| #[trigger] nodes.contains(node) <==> exists|i: int|
            0 <= i < all.len() && (#[trigger] all[i]).node == node && place::ids(all).contains(
                all[i].id,
            ) by {
            if nodes.contains(node) {
                let i = choose|i: int| 0 <= i < all.len() && (#[trigger] all[i]).node == node;
                assert(place::ids(all).contains(all[i].id));
            }
        }
    }
}

/// Cpus cover more than one node exactly when two of them sit on different
/// ones.
pub proof fn law_two_nodes_are_more_than_one(pool: Seq<Cpu>)
    ensures
        cores::spanning(pool) <==> exists|i: int, j: int|
            0 <= i < j < pool.len() && (#[trigger] pool[i]).node != (#[trigger] pool[j]).node,
{
    if cores::spanning(pool) {
        let j = choose|j: int| 0 <= j < pool.len() && (#[trigger] pool[j]).node != pool[0].node;
        assert(pool[0].node != pool[j].node);
    }
    if exists|i: int, j: int|
        0 <= i < j < pool.len() && (#[trigger] pool[i]).node != (#[trigger] pool[j]).node {
        let (i, j) = choose|i: int, j: int|
            0 <= i < j < pool.len() && (#[trigger] pool[i]).node != (#[trigger] pool[j]).node;
        assert(pool[i].node != pool[0].node || pool[j].node != pool[0].node);
    }
}

/// Those of `cpus` that sit on `node`, in their order.
pub open spec fn on_node(cpus: Seq<Cpu>, node: usize) -> Seq<Cpu> {
    cpus.filter(|c: Cpu| c.node == node)
}

/// The cpus of a node, and the cpus that are free, are picked out of the others
/// and stay in the order the pool has them in. So do the numbers left taken by
/// those handed back.
pub proof fn law_picking_out_keeps_the_order(
    pool: Seq<Cpu>,
    node: usize,
    taken: Seq<usize>,
    back: Seq<usize>,
)
    ensures
        place::members(pool, node) == on_node(pool, node),
        cores::untaken(pool, taken) == pool.filter(|c: Cpu| !taken.contains(c.id)),
        cores::without(taken, back) == taken.filter(|x: usize| !back.contains(x)),
    decreases pool.len() + taken.len(),
{
    reveal(Seq::filter);
    if pool.len() > 0 {
        law_picking_out_keeps_the_order(pool.drop_last(), node, taken, back);
    } else if taken.len() > 0 {
        law_picking_out_keeps_the_order(pool, node, taken.drop_last(), back);
    }
}

/// What a request takes off one node is the first free cpus of it, in the order
/// the pool has them in.
pub proof fn law_a_node_gives_its_first_cpus(
    free: Seq<Cpu>,
    size: nat,
    placement: Placement,
    fits: usize,
)
    requires
        0 < size <= on_node(free, fits).len(),
    ensures
        exists|node: usize|
            place::placed(free, size, placement) == (#[trigger] on_node(free, node)).take(
                size as int,
            ),
{
    law_picking_out_keeps_the_order(free, fits, Seq::empty(), Seq::empty());
    let line = place::ranked(free, placement);
    lemma_ranked(free, placement);
    lemma_first_fit(free, line, size);
    assert(line.contains(fits));
    let at = choose|at: int| 0 <= at < line.len() && line[at] == fits;
    assert(place::members(free, line[at]).len() >= size);
    let n = place::first_fit(free, line, size)->0;
    law_picking_out_keeps_the_order(free, n, Seq::empty(), Seq::empty());
    assert(place::placed(free, size, placement) == on_node(free, n).take(size as int));
}

/// A request no node can hold spends the fullest nodes first: nothing comes off
/// a node while one with more free has any left.
pub proof fn law_crossing_spends_the_fullest_first(
    free: Seq<Cpu>,
    size: nat,
    placement: Placement,
    node: usize,
    fuller: usize,
)
    requires
        forall|n: usize| (#[trigger] place::members(free, n)).len() < size,
        exists|i: int|
            0 <= i < place::placed(free, size, placement).len() && (#[trigger] place::placed(
                free,
                size,
                placement,
            )[i]).node == node,
        place::members(free, fuller).len() > place::members(free, node).len(),
    ensures
        forall|c: Cpu|
            free.contains(c) && c.node == fuller ==> #[trigger] place::placed(
                free,
                size,
                placement,
            ).contains(c),
{
    let out = place::placed(free, size, placement);
    lemma_first_fit(free, place::ranked(free, placement), size);
    match place::first_fit(free, place::ranked(free, placement), size) {
        Some(n) => {
            assert(place::members(free, n).len() < size);
        },
        None => {},
    }
    let by = Placement::Spread;
    let line = place::ranked(free, by);
    lemma_ranked(free, by);
    let all = place::node_by_node(free, line);
    lemma_node_by_node(free, line);
    let i = choose|i: int| 0 <= i < out.len() && (#[trigger] out[i]).node == node;
    assert(out[i] == all[i]);
    assert(line.contains(all[i].node));
    let k = choose|k: int| 0 <= k < line.len() && line[k] == node;
    assert(line.contains(fuller));
    let f = choose|f: int| 0 <= f < line.len() && line[f] == fuller;
    if k <= f {
        if k < f {
            assert(place::ahead(free, by, line[k], line[f]));
        }
        assert(false);
    }
    lemma_node_by_node_split(free, line, k);
    let head = place::node_by_node(free, line.take(k));
    lemma_node_by_node(free, line.take(k));
    if i < head.len() {
        assert(head[i] == all[i]);
        assert(line.take(k).contains(head[i].node));
        let h = choose|h: int| 0 <= h < k && line.take(k)[h] == node;
        assert(line[h] == line[k]);
        assert(false);
    }
    assert forall|c: Cpu| free.contains(c) && c.node == fuller implies #[trigger] out.contains(
        c,
    ) by {
        lemma_node_by_node_split(free, line.take(k), f);
        let before = place::node_by_node(free, line.take(k).take(f));
        let after = line.take(k).skip(f);
        lemma_node_by_node_split(free, after, 1);
        assert(after.take(1).drop_last() == Seq::<usize>::empty());
        assert(after.take(1).last() == fuller);
        let one = place::node_by_node(free, after.take(1));
        assert(place::node_by_node(free, Seq::<usize>::empty()) == Seq::<Cpu>::empty());
        assert(one == Seq::<Cpu>::empty() + place::members(free, fuller));
        assert(one == place::members(free, fuller));
        place::lemma_members(free, fuller);
        let j = choose|j: int| 0 <= j < free.len() && free[j] == c;
        assert(one.contains(free[j]));
        let m = choose|m: int| 0 <= m < one.len() && one[m] == c;
        assert(head[before.len() + m] == c);
        assert(all[before.len() + m] == c);
        assert(out[before.len() + m] == c);
    }
}

/// Whether `ids` are the first `size` free cpus of `node`.
pub open spec fn takes_first(free: Seq<Cpu>, size: nat, node: usize, ids: Seq<usize>) -> bool {
    &&& size <= on_node(free, node).len()
    &&& forall|id: usize| #[trigger]
        ids.contains(id) <==> exists|k: int|
            0 <= k < size && (#[trigger] on_node(free, node)[k]).id == id
}

/// Whether `ids` are the first `size` free cpus of one node, and that node is as
/// good as `other` to take them off: packed, one with no more free, and spread,
/// one with no fewer.
pub open spec fn well_placed(
    free: Seq<Cpu>,
    size: nat,
    placement: Placement,
    ids: Seq<usize>,
    other: usize,
) -> bool {
    exists|node: usize| #[trigger]
        takes_first(free, size, node, ids) && match placement {
            Placement::Pack => on_node(free, node).len() < on_node(free, other).len() || (on_node(
                free,
                node,
            ).len() == on_node(free, other).len() && node <= other),
            Placement::Spread => on_node(free, node).len() > on_node(free, other).len() || (on_node(
                free,
                node,
            ).len() == on_node(free, other).len() && on_node(free, node)[0].id <= on_node(
                free,
                other,
            )[0].id),
        }
}

proof fn lemma_well_placed(
    free: Seq<Cpu>,
    size: nat,
    placement: Placement,
    line: Seq<Cpu>,
    other: usize,
)
    requires
        0 < size <= on_node(free, other).len(),
        forall|c: Cpu| #[trigger]
            line.contains(c) <==> place::placed(free, size, placement).contains(c),
    ensures
        well_placed(free, size, placement, place::ids(line), other),
{
    let out = place::placed(free, size, placement);
    let ids = place::ids(line);
    law_picking_out_keeps_the_order(free, other, Seq::empty(), Seq::empty());
    match placement {
        Placement::Pack => law_pack_takes_the_fewest(free, size, other),
        Placement::Spread => law_spread_takes_the_most(free, size, other),
    }
    let ranks = place::ranked(free, placement);
    lemma_ranked(free, placement);
    lemma_first_fit(free, ranks, size);
    assert(ranks.contains(other));
    let at = choose|at: int| 0 <= at < ranks.len() && ranks[at] == other;
    assert(place::members(free, ranks[at]).len() >= size);
    let node = place::first_fit(free, ranks, size)->0;
    law_picking_out_keeps_the_order(free, node, Seq::empty(), Seq::empty());
    place::lemma_members(free, node);
    let own = on_node(free, node);
    assert(out == own.take(size as int));
    assert(out[0].node == node);
    assert forall|id: usize| #[trigger] ids.contains(id) <==> exists|k: int|
        0 <= k < size && (#[trigger] on_node(free, node)[k]).id == id by {
        if ids.contains(id) {
            let h = choose|h: int| 0 <= h < ids.len() && ids[h] == id;
            assert(line.contains(line[h]));
            assert(out.contains(line[h]));
            let k = choose|k: int| 0 <= k < out.len() && out[k] == line[h];
            assert(on_node(free, node)[k].id == id);
        }
        if exists|k: int| 0 <= k < size && (#[trigger] on_node(free, node)[k]).id == id {
            let k = choose|k: int| 0 <= k < size && (#[trigger] on_node(free, node)[k]).id == id;
            assert(out[k] == own[k]);
            assert(out.contains(out[k]));
            assert(line.contains(out[k]));
            let h = choose|h: int| 0 <= h < line.len() && line[h] == out[k];
            assert(ids[h] == id);
        }
    }
    assert(takes_first(free, size, node, ids));
}

/// Where a node has enough free, a lease comes off one node: the first cpus of it
/// that are free, and the node the pool's placement asks for. Packed, no node
/// that could hold it has fewer free, and spread, none has more.
pub proof fn law_a_lease_is_packed_or_spread(pool: &Cores, size: nat, lease: Lease, other: usize)
    requires
        pool.well_formed(),
        pool.grants(size, lease),
        0 < size <= on_node(
            pool.pool@.filter(|c: Cpu| !pool.taken@.contains(c.id)),
            other,
        ).len(),
    ensures
        well_placed(
            pool.pool@.filter(|c: Cpu| !pool.taken@.contains(c.id)),
            size,
            pool.placement,
            lease.cpus@,
            other,
        ),
{
    let free = pool.pool@.filter(|c: Cpu| !pool.taken@.contains(c.id));
    law_picking_out_keeps_the_order(pool.pool@, other, pool.taken@, Seq::empty());
    assert(free == pool.free());
    law_picking_out_keeps_the_order(free, other, Seq::empty(), Seq::empty());
    place::lemma_members(free, other);
    lemma_offer(pool, size);
    lemma_by_id(pool.offer(size));
    lemma_well_placed(free, size, pool.placement, cores::by_id(pool.offer(size)), other);
}

/// A carved pool comes off one node where one has enough cpus, just as a lease
/// does, and is carved by the same placement as the pool it came from. It keeps
/// everything else of that pool and has nothing taken from it.
pub proof fn law_a_carve_is_placed_like_a_lease(
    pool: &Cores,
    size: nat,
    carved: Cores,
    other: usize,
)
    requires
        pool.well_formed(),
        pool.carves(size, carved),
        0 < size <= on_node(pool.pool@, other).len(),
    ensures
        well_placed(pool.pool@, size, pool.placement, place::ids(carved.pool@), other),
        order::rising(place::ids(carved.pool@)),
        carved.taken@.len() == 0,
        carved.placement == pool.placement,
        carved.numa == pool.numa,
        carved.mems@ == pool.mems@,
        carved.pooled,
{
    let all = place::ids(pool.pool@);
    assert forall|i: int, j: int|
        0 <= i < pool.pool@.len() && 0 <= j < pool.pool@.len() && i != j implies pool.pool@[i]
        != pool.pool@[j] by {
        assert(all[i] != all[j]);
    }
    law_placement_is_free(pool.pool@, size, pool.placement);
    let out = place::placed(pool.pool@, size, pool.placement);
    lemma_ids_distinct(pool.pool@, out);
    lemma_by_id(out);
    lemma_well_placed(pool.pool@, size, pool.placement, carved.pool@, other);
}

/// A lease crosses no more nodes than it has to: any other cpus that are free,
/// as many as it holds, sit on at least as many.
pub proof fn law_a_lease_crosses_few_nodes(
    pool: &Cores,
    size: nat,
    lease: Lease,
    other: Seq<Cpu>,
)
    requires
        pool.well_formed(),
        pool.numa,
        size <= pool.free().len(),
        pool.grants(size, lease),
        other.no_duplicates(),
        size <= other.len(),
        forall|i: int|
            0 <= i < other.len() ==> pool.pool@.contains(#[trigger] other[i])
                && !pool.taken@.contains(other[i].id),
    ensures
        lease.nodes@.len() <= place::nodes_under(other).len(),
{
    let free = pool.free();
    cores::lemma_untaken(pool.pool@, pool.taken@);
    assert forall|i: int| 0 <= i < other.len() implies free.contains(#[trigger] other[i]) by {
        assert(pool.pool@.contains(other[i]));
    }
    law_fewest_nodes(free, size, pool.placement, other);
}

} // verus!
