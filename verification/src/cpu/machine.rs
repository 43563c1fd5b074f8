//! What the machine says of its cpus and nodes, put in order.

use std::collections::BTreeMap;

use vstd::prelude::*;

use crate::cpu::list;
use crate::cpu::list_laws;
use crate::cpu::place::Cpu;
use crate::order;
use crate::text;

verus! {

/// Whether `cpu` shares a core with one of `chosen`, whose siblings are known.
pub open spec fn spoken_for(chosen: Seq<int>, siblings: Seq<Vec<usize>>, cpu: usize) -> bool {
    exists|k: int| 0 <= k < chosen.len() && siblings[#[trigger] chosen[k]]@.contains(cpu)
}

/// Which of the first `n` cpus of `allowed` speak for their cores: each that
/// no earlier one of them shares a core with.
pub open spec fn chosen(allowed: Seq<usize>, siblings: Seq<Vec<usize>>, n: nat) -> Seq<int>
    decreases n,
{
    if n == 0 {
        Seq::empty()
    } else {
        let so_far = chosen(allowed, siblings, (n - 1) as nat);
        if spoken_for(so_far, siblings, allowed[n - 1]) {
            so_far
        } else {
            so_far.push(n - 1)
        }
    }
}

/// The first cpu of each physical core, given every cpu and its siblings.
//
// two logical cpus on one physical core share its execution
// units, and a command given both would get less than two
// cores of work while the table said 2
pub fn one_per_core(allowed: &[usize], siblings: &[Vec<usize>]) -> (pool: Vec<usize>)
    requires
        allowed@.len() == siblings@.len(),
    ensures
        pool@ == chosen(allowed@, siblings@, allowed@.len()).map_values(|i: int| allowed@[i]),
{
    let mut pool: Vec<usize> = Vec::new();
    let mut spoken: Vec<usize> = Vec::new();
    let mut i: usize = 0;
    let ghost mut at: Seq<int> = Seq::empty();
    while i < allowed.len()
        invariant
            i <= allowed@.len(),
            allowed@.len() == siblings@.len(),
            at == chosen(allowed@, siblings@, i as nat),
            pool@ == at.map_values(|i: int| allowed@[i]),
            forall|k: int| 0 <= k < at.len() ==> 0 <= #[trigger] at[k] < i,
            forall|x: usize| #[trigger] spoken@.contains(x) <==> spoken_for(at, siblings@, x),
        decreases allowed@.len() - i,
    {
        let cpu: usize = allowed[i];
        if !order::holds(spoken.as_slice(), cpu) {
            let ghost was = spoken@;
            let ghost more = siblings@[i as int]@;
            let ghost next = at.push(i as int);
            spoken.extend_from_slice(siblings[i].as_slice());
            pool.push(cpu);
            proof {
                assert(spoken@ == was + more);
                assert forall|x: usize| #[trigger] spoken@.contains(x) <==> spoken_for(
                    next,
                    siblings@,
                    x,
                ) by {
                    if spoken@.contains(x) {
                        let k = choose|k: int| 0 <= k < spoken@.len() && spoken@[k] == x;
                        if k < was.len() {
                            assert(was[k] == x);
                            assert(was.contains(x));
                            let h = choose|h: int|
                                0 <= h < at.len() && siblings@[#[trigger] at[h]]@.contains(x);
                            assert(next[h] == at[h]);
                        } else {
                            assert(more[k - was.len()] == x);
                            assert(more.contains(x));
                            assert(next[at.len() as int] == i);
                        }
                    }
                    if spoken_for(next, siblings@, x) {
                        let h = choose|h: int|
                            0 <= h < next.len() && siblings@[#[trigger] next[h]]@.contains(x);
                        if h < at.len() {
                            assert(next[h] == at[h]);
                            assert(was.contains(x));
                            let k = choose|k: int| 0 <= k < was.len() && was[k] == x;
                            assert(spoken@[k] == x);
                        } else {
                            let k = choose|k: int| 0 <= k < more.len() && more[k] == x;
                            assert(spoken@[was.len() + k] == x);
                        }
                    }
                }
                assert(next.map_values(|i: int| allowed@[i]) == at.map_values(
                    |i: int| allowed@[i],
                ).push(cpu));
                at = next;
            }
        }
        i = i + 1;
    }
    pool
}

/// The pool holds one cpu per physical core: none shares a core with another
/// ahead of it, and every cpu left out shares one with a cpu in the pool.
pub proof fn law_one_per_core(allowed: Seq<usize>, siblings: Seq<Vec<usize>>, n: nat)
    ensures
        forall|j: int, k: int|
            0 <= j < k < chosen(allowed, siblings, n).len()
                ==> !siblings[#[trigger] chosen(allowed, siblings, n)[j]]@.contains(
                allowed[#[trigger] chosen(allowed, siblings, n)[k]],
            ),
        forall|i: int|
            0 <= i < n ==> chosen(allowed, siblings, n).contains(i) || spoken_for(
                chosen(allowed, siblings, n),
                siblings,
                #[trigger] allowed[i],
            ),
    decreases n,
{
    if n > 0 {
        let m = (n - 1) as nat;
        let was = chosen(allowed, siblings, m);
        let now = chosen(allowed, siblings, n);
        law_one_per_core(allowed, siblings, m);
        assert forall|i: int| 0 <= i < n implies now.contains(i) || spoken_for(
            now,
            siblings,
            #[trigger] allowed[i],
        ) by {
            if i < m {
                if was.contains(i) {
                    let k = choose|k: int| 0 <= k < was.len() && was[k] == i;
                    assert(now[k] == i);
                } else {
                    let k = choose|k: int|
                        0 <= k < was.len() && siblings[#[trigger] was[k]]@.contains(allowed[i]);
                    assert(now[k] == was[k]);
                }
            } else if !spoken_for(was, siblings, allowed[i]) {
                assert(now[was.len() as int] == i);
            }
        }
        assert forall|j: int, k: int| 0 <= j < k < now.len() implies !siblings[#[trigger] now[
        j]]@.contains(allowed[#[trigger] now[k]]) by {
            assert(now[j] == was[j]);
            if k < was.len() {
                assert(now[k] == was[k]);
            }
        }
    }
}

/// Every logical cpu sharing a physical core with this one, itself included, out
/// of what sysfs says of it, or only this one where it says nothing.
pub fn siblings(cpu: usize, said: Option<&str>) -> (v: Vec<usize>)
    ensures
        v@ == match said {
            Some(said) => list::list_cpus(said@),
            None => seq![cpu],
        },
{
    match said {
        Some(said) => list::parse_list(said),
        None => {
            let mut v: Vec<usize> = Vec::new();
            v.push(cpu);
            assert(v@ == seq![cpu]);
            v
        },
    }
}

/// The pool's cpus, each with the memory node it sits on.
///
/// A cpu that no node's cpulist names puts the whole pool on node 0, which is
/// a pool with one node and so no policy at all.
//
// a map missing one cpu may be missing a whole node, and
// placing by it would bind commands to nodes it has wrong
pub fn locate(cpus: &[usize], nodes: &BTreeMap<usize, usize>) -> (pool: Vec<Cpu>)
    ensures
        pool@.len() == cpus@.len(),
        forall|i: int| 0 <= i < cpus@.len() ==> (#[trigger] pool@[i]).id == cpus@[i],
        (forall|i: int| 0 <= i < cpus@.len() ==> nodes@.contains_key(#[trigger] cpus@[i])) ==> (
        forall|i: int| 0 <= i < cpus@.len() ==> (#[trigger] pool@[i]).node == nodes@[cpus@[i]]),
        (exists|i: int| 0 <= i < cpus@.len() && !nodes@.contains_key(#[trigger] cpus@[i])) ==> (
        forall|i: int| 0 <= i < cpus@.len() ==> (#[trigger] pool@[i]).node == 0),
{
    let mut whole: bool = true;
    let mut i: usize = 0;
    while i < cpus.len()
        invariant
            i <= cpus@.len(),
            whole <==> forall|k: int| 0 <= k < i ==> nodes@.contains_key(#[trigger] cpus@[k]),
        decreases cpus@.len() - i,
    {
        if !nodes.contains_key(&cpus[i]) {
            whole = false;
        }
        i = i + 1;
    }
    let mut pool: Vec<Cpu> = Vec::new();
    let mut i: usize = 0;
    while i < cpus.len()
        invariant
            i <= cpus@.len(),
            whole <==> forall|k: int|
                0 <= k < cpus@.len() ==> nodes@.contains_key(#[trigger] cpus@[k]),
            pool@.len() == i,
            forall|k: int| 0 <= k < i ==> (#[trigger] pool@[k]).id == cpus@[k],
            whole ==> forall|k: int| 0 <= k < i ==> (#[trigger] pool@[k]).node == nodes@[cpus@[k]],
            !whole ==> forall|k: int| 0 <= k < i ==> (#[trigger] pool@[k]).node == 0,
        decreases cpus@.len() - i,
    {
        let id: usize = cpus[i];
        let node: usize = if whole {
            match nodes.get(&id) {
                Some(node) => *node,
                None => 0,
            }
        } else {
            0
        };
        pool.push(Cpu { id, node });
        i = i + 1;
    }
    pool
}

/// `map` with every one of `cpus` put on `node`.
pub open spec fn charted(map: Map<usize, usize>, cpus: Seq<usize>, node: usize) -> Map<usize, usize>
    decreases cpus.len(),
{
    if cpus.len() == 0 {
        map
    } else {
        charted(map, cpus.drop_last(), node).insert(cpus.last(), node)
    }
}

/// Put every cpu of a node's cpulist on that node.
pub fn chart(map: &mut BTreeMap<usize, usize>, node: usize, cpulist: &str)
    ensures
        final(map)@ == charted(old(map)@, list::list_cpus(cpulist@), node),
{
    let cpus = list::parse_list(cpulist);
    let mut i: usize = 0;
    while i < cpus.len()
        invariant
            i <= cpus@.len(),
            map@ == charted(old(map)@, cpus@.take(i as int), node),
        decreases cpus@.len() - i,
    {
        assert(cpus@.take(i + 1).drop_last() == cpus@.take(i as int));
        map.insert(cpus[i], node);
        i = i + 1;
    }
    assert(cpus@.take(cpus@.len() as int) == cpus@);
}

/// `s` past `prefix`, if that is how it starts.
pub open spec fn past(s: Seq<char>, prefix: Seq<char>) -> Option<Seq<char>> {
    if prefix.len() <= s.len() && s.take(prefix.len() as int) == prefix {
        Some(s.skip(prefix.len() as int))
    } else {
        None
    }
}

/// `v` past `prefix`, if that is how it starts.
fn strip(v: &Vec<char>, prefix: &str) -> (r: Option<Vec<char>>)
    ensures
        match past(v@, prefix@) {
            Some(rest) => r is Some && r->0@ == rest,
            None => r is None,
        },
{
    let p = text::chars(prefix);
    if p.len() > v.len() {
        return None;
    }
    let mut i: usize = 0;
    while i < p.len()
        invariant
            i <= p@.len() <= v@.len(),
            p@ == prefix@,
            forall|k: int| 0 <= k < i ==> v@[k] == p@[k],
        decreases p@.len() - i,
    {
        if v[i] != p[i] {
            assert(v@.take(p@.len() as int)[i as int] != p@[i as int]);
            return None;
        }
        i = i + 1;
    }
    assert(v@.take(p@.len() as int) == p@);
    let rest = text::slice(v.as_slice(), i, v.len());
    assert(rest@ == v@.skip(p@.len() as int));
    Some(rest)
}

/// The number of the node that sysfs keeps in a directory of this name, if it
/// is a node's.
pub fn node_number(name: &str) -> (r: Option<usize>)
    ensures
        r == match past(name@, "node"@) {
            Some(rest) => text::number(rest),
            None => None,
        },
{
    match strip(&text::chars(name), "node") {
        Some(rest) => text::parse_usize(rest.as_slice()),
        None => None,
    }
}

/// What follows `prefix` on the first line of `s` that starts with it.
pub open spec fn after_prefix(s: Seq<char>, prefix: Seq<char>) -> Option<Seq<char>>
    decreases s.len(),
{
    let end = text::find(s, '\n');
    match past(s.take(end as int), prefix) {
        Some(rest) => Some(rest),
        None => if end < s.len() {
            after_prefix(s.skip(end as int + 1), prefix)
        } else {
            None
        },
    }
}

/// The memory nodes this process may allocate from, out of what the kernel
/// says of it in `/proc/self/status`. None where that does not say.
pub fn mems_allowed(status: &str) -> (r: Vec<usize>)
    ensures
        r@ == match after_prefix(status@, "Mems_allowed_list:"@) {
            Some(rest) => list::list_cpus(rest),
            None => Seq::empty(),
        },
{
    let v = text::chars(status);
    let ghost prefix = "Mems_allowed_list:"@;
    let mut at: usize = 0;
    assert(v@.skip(0) == v@);
    loop
        invariant
            at <= v@.len(),
            v@ == status@,
            prefix == "Mems_allowed_list:"@,
            after_prefix(v@, prefix) == after_prefix(v@.skip(at as int), prefix),
        decreases v@.len() - at,
    {
        let end: usize = text::position(v.as_slice(), at, '\n');
        let line = text::slice(v.as_slice(), at, end);
        let ghost rest = v@.skip(at as int);
        assert(line@ == rest.take(end - at));
        match strip(&line, "Mems_allowed_list:") {
            Some(rest) => {
                return list::parse_list(text::string(rest.as_slice()).as_str());
            },
            None => {},
        }
        if end == v.len() {
            return Vec::new();
        }
        assert(rest.skip(end - at + 1) == v@.skip(end + 1));
        at = end + 1;
    }
}

/// The cpus that speak for their cores come in the order they were given, and
/// one is passed over only for sharing a core with one ahead of it.
pub proof fn law_the_first_of_a_core_speaks_for_it(
    allowed: Seq<usize>,
    siblings: Seq<Vec<usize>>,
    n: nat,
    i: int,
)
    requires
        0 <= i < n,
    ensures
        forall|j: int, k: int|
            0 <= j < k < chosen(allowed, siblings, n).len() ==> (#[trigger] chosen(
                allowed,
                siblings,
                n,
            )[j]) < (#[trigger] chosen(allowed, siblings, n)[k]),
        forall|k: int|
            0 <= k < chosen(allowed, siblings, n).len() ==> 0 <= (#[trigger] chosen(
                allowed,
                siblings,
                n,
            )[k]) < n,
        chosen(allowed, siblings, n).contains(i) <==> !exists|j: int|
            0 <= j < i && chosen(allowed, siblings, n).contains(j) && (
            #[trigger] siblings[j])@.contains(allowed[i]),
    decreases n,
{
    let m = (n - 1) as nat;
    let was = chosen(allowed, siblings, m);
    let now = chosen(allowed, siblings, n);
    lemma_chosen_rise(allowed, siblings, n);
    lemma_chosen_rise(allowed, siblings, m);
    assert forall|x: int| x < m implies (was.contains(x) <==> now.contains(x)) by {
        if was.contains(x) {
            let k = choose|k: int| 0 <= k < was.len() && was[k] == x;
            assert(now[k] == x);
        }
        if now.contains(x) {
            let k = choose|k: int| 0 <= k < now.len() && now[k] == x;
            assert(was[k] == x);
        }
    }
    if i < m {
        law_the_first_of_a_core_speaks_for_it(allowed, siblings, m, i);
        if exists|j: int|
            0 <= j < i && now.contains(j) && (#[trigger] siblings[j])@.contains(allowed[i]) {
            let j = choose|j: int|
                0 <= j < i && now.contains(j) && (#[trigger] siblings[j])@.contains(allowed[i]);
            assert(was.contains(j));
        }
        if exists|j: int|
            0 <= j < i && was.contains(j) && (#[trigger] siblings[j])@.contains(allowed[i]) {
            let j = choose|j: int|
                0 <= j < i && was.contains(j) && (#[trigger] siblings[j])@.contains(allowed[i]);
            assert(now.contains(j));
        }
    } else {
        if spoken_for(was, siblings, allowed[i]) {
            let k = choose|k: int|
                0 <= k < was.len() && siblings[#[trigger] was[k]]@.contains(allowed[i]);
            let j = was[k];
            assert(was.contains(j));
            assert(now.contains(j) && siblings[j]@.contains(allowed[i]));
            if now.contains(i) {
                let h = choose|h: int| 0 <= h < now.len() && now[h] == i;
                assert(was[h] < m);
            }
        } else {
            assert(now[was.len() as int] == i);
            assert forall|j: int| 0 <= j < i && now.contains(j) implies !(
            #[trigger] siblings[j])@.contains(allowed[i]) by {
                let k = choose|k: int| 0 <= k < was.len() && was[k] == j;
                assert(was.contains(j));
                assert(!siblings[was[k]]@.contains(allowed[i]));
            }
        }
    }
}

proof fn lemma_chosen_rise(allowed: Seq<usize>, siblings: Seq<Vec<usize>>, n: nat)
    ensures
        forall|j: int, k: int|
            0 <= j < k < chosen(allowed, siblings, n).len() ==> (#[trigger] chosen(
                allowed,
                siblings,
                n,
            )[j]) < (#[trigger] chosen(allowed, siblings, n)[k]),
        forall|k: int|
            0 <= k < chosen(allowed, siblings, n).len() ==> 0 <= (#[trigger] chosen(
                allowed,
                siblings,
                n,
            )[k]) < n,
    decreases n,
{
    if n > 0 {
        let was = chosen(allowed, siblings, (n - 1) as nat);
        let now = chosen(allowed, siblings, n);
        lemma_chosen_rise(allowed, siblings, (n - 1) as nat);
        assert forall|k: int| 0 <= k < now.len() implies 0 <= #[trigger] now[k] < n by {
            if k < was.len() {
                assert(now[k] == was[k]);
            }
        }
        assert forall|j: int, k: int| 0 <= j < k < now.len() implies (#[trigger] now[j]) < (
        #[trigger] now[k]) by {
            assert(now[j] == was[j]);
            if k < was.len() {
                assert(now[k] == was[k]);
            }
        }
    }
}

/// Charting a node's cpus puts each of them on it and leaves every other where
/// it was.
pub proof fn law_charting_moves_only_the_cpus_named(
    map: Map<usize, usize>,
    cpus: Seq<usize>,
    node: usize,
    cpu: usize,
)
    ensures
        cpus.contains(cpu) ==> charted(map, cpus, node).contains_key(cpu) && charted(
            map,
            cpus,
            node,
        )[cpu] == node,
        !cpus.contains(cpu) ==> (charted(map, cpus, node).contains_key(cpu) <==> map.contains_key(
            cpu,
        )) && charted(map, cpus, node)[cpu] == map[cpu],
    decreases cpus.len(),
{
    if cpus.len() > 0 {
        law_charting_moves_only_the_cpus_named(map, cpus.drop_last(), node, cpu);
        order::lemma_but_last(cpus, cpu);
    }
}

/// A directory is a node's if its name is `node` and a number, and that is the
/// node's number. Anything else is no node's.
pub proof fn law_a_node_is_named_by_its_number(n: usize, name: Seq<char>, rest: Seq<char>)
    ensures
        past("node"@ + rest, "node"@) == Some(rest),
        text::number(text::decimal(n as nat)) == Some(n),
        past(name, "node"@) is Some <==> exists|tail: Seq<char>| name == #[trigger] ("node"@ + tail),
        past(name, "node"@) is Some ==> name == "node"@ + past(name, "node"@)->0,
{
    let p = "node"@;
    list_laws::lemma_number_reads_back(n);
    assert((p + rest).take(p.len() as int) == p);
    assert((p + rest).skip(p.len() as int) == rest);
    if exists|tail: Seq<char>| name == #[trigger] (p + tail) {
        let tail = choose|tail: Seq<char>| name == #[trigger] (p + tail);
        assert(name.take(p.len() as int) == p);
    }
    if past(name, p) is Some {
        assert(name == p + name.skip(p.len() as int));
    }
}

/// What is looked for is on the first line that starts with the prefix: a line
/// that does is read to its end, and one that does not is passed over.
pub proof fn law_the_first_line_that_starts_so_is_read(
    line: Seq<char>,
    rest: Seq<char>,
    prefix: Seq<char>,
)
    requires
        !line.contains('\n'),
        !prefix.contains('\n'),
    ensures
        after_prefix(prefix + line + "\n"@ + rest, prefix) == Some(line),
        after_prefix(prefix + line, prefix) == Some(line),
        !(prefix.len() <= line.len() && line.take(prefix.len() as int) == prefix) ==> after_prefix(
            line + "\n"@ + rest,
            prefix,
        ) == after_prefix(rest, prefix) && after_prefix(line, prefix) is None,
{
    reveal_strlit("\n");
    assert("\n"@ == seq!['\n']);
    let own = prefix + line;
    assert forall|i: int| 0 <= i < own.len() implies own[i] != '\n' by {
        if i < prefix.len() {
            assert(prefix.contains(prefix[i]));
        } else {
            assert(line.contains(line[i - prefix.len()]));
        }
    }
    lemma_first_line(own, rest);
    assert(own.take(prefix.len() as int) == prefix);
    assert(own.skip(prefix.len() as int) == line);
    assert forall|i: int| 0 <= i < line.len() implies line[i] != '\n' by {
        assert(line.contains(line[i]));
    }
    lemma_first_line(line, rest);
}

proof fn lemma_first_line(line: Seq<char>, rest: Seq<char>)
    requires
        forall|i: int| 0 <= i < line.len() ==> line[i] != '\n',
    ensures
        ({
            let all = line + seq!['\n'] + rest;
            &&& text::find(all, '\n') == line.len()
            &&& all.take(line.len() as int) == line
            &&& all.skip(line.len() as int + 1) == rest
            &&& text::find(line, '\n') == line.len()
            &&& line.take(line.len() as int) == line
        }),
{
    let all = line + seq!['\n'] + rest;
    assert forall|i: int| 0 <= i < line.len() implies all[i] != '\n' by {
        assert(all[i] == line[i]);
    }
    text::lemma_found(all, '\n', line.len());
    text::lemma_found(line, '\n', line.len());
    assert(all.take(line.len() as int) == line);
    assert(all.skip(line.len() as int + 1) == rest);
}

} // verus!
