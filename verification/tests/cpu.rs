use std::collections::BTreeMap;

use michi::cpu::cores::{spans_nodes, Cores, Lease, Turn};
use michi::cpu::list::{list, list_width, parse_list};
use michi::cpu::machine::{chart, locate, mems_allowed, node_number, one_per_core, siblings};
use michi::cpu::mask::{mask, nodemask};
use michi::cpu::place::{gather, nodewise, place, Cpu};
use michi::Placement;

/// The lease, if the cores were to be had.
fn held(turn: Turn) -> Option<Lease> {
    match turn {
        Turn::Held(lease) => Some(lease),
        Turn::Never | Turn::Wait => None,
    }
}

#[test]
fn a_list_compresses_runs_and_leaves_a_step_of_one_unsaid() {
    assert_eq!(list(&[]), "");
    assert_eq!(list(&[3]), "3");
    assert_eq!(list(&[0, 2]), "0,2");
    assert_eq!(list(&[0, 1]), "0-1");
    assert_eq!(list(&[0, 1, 2, 3]), "0-3");
    assert_eq!(list(&[0, 2, 4, 6]), "0-6:2");
    // a pair a step apart is no run, so the next one starts
    // from its second cpu
    assert_eq!(list(&[0, 2, 3, 4]), "0,2-4");
    assert_eq!(
        list(&[4, 0, 2, 2]),
        "0-4:2",
        "sorted and deduplicated first"
    );

    // one node of a machine that numbers its nodes alternately,
    // and a request that took five off one node and the rest off
    // the other
    let odd: Vec<usize> = (1..96).step_by(2).collect();
    assert_eq!(list(&odd), "1-95:2");
    let mut spanning = vec![0, 1, 2, 3, 4];
    spanning.extend((6..=94).step_by(2));
    assert_eq!(list(&spanning), "0-4,6-94:2");
}

#[test]
fn parse_list_reads_what_the_kernel_writes() {
    assert_eq!(parse_list("16"), vec![16]);
    assert_eq!(parse_list("0-1"), vec![0, 1]);
    assert_eq!(parse_list("0-3,8-11"), vec![0, 1, 2, 3, 8, 9, 10, 11]);
    assert_eq!(parse_list("0,4,8"), vec![0, 4, 8]);
    // sysfs files end in a newline
    assert_eq!(parse_list("2-3\n"), vec![2, 3]);
}

#[test]
fn parse_list_gives_up_on_a_part_it_cannot_read_rather_than_the_whole_line() {
    assert_eq!(parse_list(""), Vec::<usize>::new());
    assert_eq!(parse_list("\n"), Vec::<usize>::new());
    assert_eq!(parse_list("junk"), Vec::<usize>::new());
    assert_eq!(parse_list("0,junk,2"), vec![0, 2]);
    // a range that runs backwards yields nothing, not a panic
    assert_eq!(parse_list("5-2"), Vec::<usize>::new());
}

/// Two nodes of four, the way a small two socket machine comes out.
fn two_nodes() -> Cores {
    Cores::with_layout(&[
        (0, 0),
        (2, 0),
        (4, 0),
        (6, 0),
        (8, 1),
        (10, 1),
        (12, 1),
        (14, 1),
    ])
}

#[test]
fn a_command_takes_its_cores_off_one_node() {
    let mut cores = two_nodes();
    let lease = held(cores.acquire(4, || false)).expect("a node's worth");

    assert_eq!(lease.cpus(), [0, 2, 4, 6]);
    assert_eq!(lease.nodes(), [0]);
}

#[test]
fn a_narrow_request_leaves_the_wide_node_whole() {
    // two free on one node and four on the other: taking the
    // pair off the small one keeps the big one able to hold a
    // request that only it could
    let mut cores = Cores::with_layout(&[(0, 0), (2, 0), (4, 1), (6, 1), (8, 1), (10, 1)]);

    let small = held(cores.acquire(2, || false)).expect("the pair");
    assert_eq!(small.cpus(), [0, 2]);

    let wide = held(cores.acquire(4, || false)).expect("the other node, still whole");
    assert_eq!(wide.cpus(), [4, 6, 8, 10]);
    assert_eq!(wide.nodes(), [1]);
}

#[test]
fn spreading_takes_the_node_with_the_most_free() {
    let mut cores = Cores::with_layout(&[(0, 0), (2, 0), (4, 0), (6, 1), (8, 1), (10, 1)]);
    cores.placement = Placement::Spread;

    let first = held(cores.acquire(2, || false)).expect("a pair");
    assert_eq!(first.nodes(), [0]);

    // packing would put this beside the first, on the one
    // core node 0 has left
    let second = held(cores.acquire(1, || false)).expect("one more");
    assert_eq!(second.nodes(), [1]);
}

#[test]
fn a_request_no_node_can_hold_crosses_as_few_as_it_must() {
    let mut cores = two_nodes();
    let lease = held(cores.acquire(6, || false)).expect("more than a node holds");

    assert_eq!(lease.cpus(), [0, 2, 4, 6, 8, 10]);
    assert_eq!(
        lease.nodes(),
        [0, 1],
        "one node filled before the next is touched"
    );
}

#[test]
fn a_cpu_no_node_names_puts_the_pool_on_one_node() {
    let nodes = BTreeMap::from([(0, 0), (1, 1), (2, 0)]);

    let placed = locate(&[0, 1, 2], &nodes);
    assert_eq!(placed.iter().map(|c| c.node).collect::<Vec<_>>(), [0, 1, 0]);

    // node 1's cpulist unread, so cpu 3 is nowhere
    let partial = locate(&[0, 1, 2, 3], &nodes);
    assert!(partial.iter().all(|c| c.node == 0));
}

#[test]
fn a_carved_pool_sits_on_one_node_and_still_names_it() {
    let machine = Cores::with_layout(&[(0, 0), (1, 1), (2, 0), (3, 1), (4, 0), (5, 1)]);
    assert!(machine.whole().is_none(), "the machine is not a pool");

    let mut pool = machine.carve(2);
    assert_eq!(pool.whole(), Some((vec![0, 2], vec![0])));

    // one node's worth of cpus, on a machine with two: a lease
    // out of it still says where it is
    let lease = held(pool.acquire(1, || false)).expect("one of two");
    assert_eq!(lease.nodes(), [0]);
}

#[test]
fn a_pool_carved_from_a_pool_stays_inside_it() {
    let machine = Cores::with_layout(&[(0, 0), (1, 1), (2, 0), (3, 1), (4, 0), (5, 1)]);
    let outer = machine.carve(4);
    let inner = outer.carve(3);

    let (cpus, nodes) = inner.whole().unwrap();
    assert_eq!(cpus.len(), 3);
    let (outside, _) = outer.whole().unwrap();
    assert!(cpus.iter().all(|cpu| outside.contains(cpu)), "{cpus:?}");
    // the outer pool took node 0's three and one of node 1's,
    // so node 0 alone holds the inner one
    assert_eq!(nodes, [0]);
}

#[test]
fn a_machine_with_one_node_reports_none() {
    let mut cores = Cores::with_pool(vec![0, 2, 4, 6]);
    let lease = held(cores.acquire(2, || false)).expect("two of four");

    assert_eq!(lease.cpus(), [0, 2]);
    assert!(
        lease.nodes().is_empty(),
        "nothing to prefer, and nothing for the table to say"
    );
}

#[test]
fn nodemask_sets_a_bit_per_node() {
    assert_eq!(nodemask(&[0]), (vec![0b1], 2));
    assert_eq!(nodemask(&[1]), (vec![0b10], 3));
    assert_eq!(nodemask(&[0, 1]), (vec![0b11], 3));
    // a node past the first word grows the mask rather than
    // writing off the end of it
    let past = u64::BITS as usize;
    assert_eq!(nodemask(&[past]), (vec![0, 1], past + 2));
    // no nodes is the single node machine asking for no policy
    assert_eq!(nodemask(&[]), (Vec::new(), 0));
}

#[test]
fn two_leases_never_share_a_core() {
    let mut cores = Cores::with_pool(vec![0, 2, 4, 6]);
    let first = held(cores.acquire(2, || false)).expect("two of four");
    let second = held(cores.acquire(2, || false)).expect("the other two");

    assert_eq!(first.cpus(), [0, 2]);
    assert_eq!(second.cpus(), [4, 6]);
    assert!(cores.try_acquire(1).is_none(), "pool should be empty");
}

#[test]
fn dropping_a_lease_hands_the_cores_back() {
    let mut cores = Cores::with_pool(vec![0, 2, 4, 6]);
    let all = held(cores.acquire(4, || false)).expect("the whole pool");
    assert!(cores.try_acquire(1).is_none(), "nothing should be left");
    cores.release(all.cpus());
    assert_eq!(
        cores.try_acquire(4).map(|l| l.cpus().to_vec()),
        Some(vec![0, 2, 4, 6]),
        "the whole pool should be back"
    );
}

#[test]
fn packing_leaves_no_gap() {
    let mut cores = Cores::with_pool(vec![0, 2, 4, 6, 8, 10]);
    let small = held(cores.acquire(1, || false)).expect("one");
    let big = held(cores.acquire(3, || false)).expect("three");

    assert_eq!(small.cpus(), [0]);
    assert_eq!(
        big.cpus(),
        [2, 4, 6],
        "should start right after the small one"
    );
}

#[test]
fn asking_for_more_than_exists_is_refused_rather_than_waited_on() {
    let mut cores = Cores::with_pool(vec![0, 2]);
    assert!(matches!(cores.acquire(3, || false), Turn::Never));
    assert!(cores.try_acquire(3).is_none());
}

#[test]
fn asking_for_none_gets_none() {
    let mut cores = Cores::with_pool(vec![0, 2]);
    assert!(matches!(cores.acquire(0, || false), Turn::Never));
    // and took nothing
    assert_eq!(
        cores.try_acquire(2).map(|l| l.cpus().to_vec()),
        Some(vec![0, 2])
    );
}

#[test]
fn a_wait_can_be_abandoned() {
    let mut cores = Cores::with_pool(vec![0, 2]);
    let _all = held(cores.acquire(2, || false)).expect("the whole pool");
    assert!(matches!(cores.acquire(1, || true), Turn::Never));
}

#[test]
fn a_mask_holds_exactly_the_cpus_it_was_given() {
    let held = mask(&[0, 2], 1024);

    assert_eq!(held, [0, 2]);
    assert_eq!(list(&held), "0,2");
}

fn cpus(layout: &[(usize, usize)]) -> Vec<Cpu> {
    layout.iter().map(|&(id, node)| Cpu { id, node }).collect()
}

fn ids(cpus: &[Cpu]) -> Vec<usize> {
    cpus.iter().map(|c| c.id).collect()
}

#[test]
fn a_busy_pool_is_worth_waiting_for() {
    let mut cores = Cores::with_pool(vec![0, 2]);
    let all = held(cores.acquire(2, || false)).expect("the whole pool");
    assert!(matches!(cores.acquire(1, || false), Turn::Wait));
    cores.release(all.cpus());
    let one = held(cores.acquire(1, || false)).expect("one of two");
    assert_eq!(one.cpus(), [0]);
}

#[test]
fn a_release_gives_back_only_what_it_names() {
    let mut cores = Cores::with_pool(vec![0, 2, 4]);
    let one = held(cores.acquire(1, || false)).expect("one");
    let two = held(cores.acquire(2, || false)).expect("two");
    cores.release(one.cpus());
    assert_eq!(cores.taken, two.cpus());
    assert_eq!(cores.try_acquire(1).map(|l| l.cpus().to_vec()), Some(vec![0]));
    assert_eq!(cores.len(), 3);
}

#[test]
fn packing_takes_the_fewest_free_and_then_the_lowest_node() {
    let free = cpus(&[(0, 1), (1, 0), (2, 1), (3, 0), (4, 2), (5, 2), (6, 2)]);
    assert_eq!(ids(&place(&free, 2, Placement::Pack)), [1, 3]);
    assert_eq!(ids(&place(&free, 3, Placement::Pack)), [4, 5, 6]);
}

#[test]
fn spreading_takes_the_most_free_and_then_the_lowest_cpu() {
    let free = cpus(&[(0, 1), (1, 0), (2, 1), (3, 0), (4, 2)]);
    assert_eq!(ids(&place(&free, 1, Placement::Spread)), [0]);
    let free = cpus(&[(0, 1), (1, 0), (3, 0), (4, 2)]);
    assert_eq!(ids(&place(&free, 1, Placement::Spread)), [1]);
}

#[test]
fn crossing_fills_the_fullest_node_first() {
    let free = cpus(&[(0, 0), (2, 0), (4, 1), (6, 1), (8, 1), (10, 2)]);
    assert_eq!(ids(&place(&free, 4, Placement::Pack)), [4, 6, 8, 0]);
    assert_eq!(ids(&place(&free, 4, Placement::Spread)), [4, 6, 8, 0]);
    // more than there is takes all of it
    assert_eq!(place(&free, 9, Placement::Pack).len(), 6);
}

#[test]
fn a_node_is_gathered_in_the_order_its_cpus_come() {
    let free = cpus(&[(3, 1), (0, 0), (1, 1)]);
    assert_eq!(ids(&gather(&free, 1)), [3, 1]);
    assert_eq!(ids(&gather(&free, 7)), Vec::<usize>::new());
    let groups: Vec<Vec<usize>> = nodewise(&free).iter().map(|g| ids(g)).collect();
    assert_eq!(groups.len(), 2);
    assert!(groups.contains(&vec![3, 1]) && groups.contains(&vec![0]));
}

#[test]
fn a_pool_lists_its_nodes() {
    let cores = two_nodes();
    assert_eq!(
        cores.by_node(),
        [(0, vec![0, 2, 4, 6]), (1, vec![8, 10, 12, 14])]
    );
    assert!(cores.numa);
    assert!(spans_nodes(&cpus(&[(0, 0), (1, 1)])));
    assert!(!spans_nodes(&cpus(&[(0, 1), (1, 1)])));
    assert_eq!(Placement::default(), Placement::Pack);
}

#[test]
fn a_list_without_strides_reads_back() {
    for cpus in [vec![], vec![7], vec![0, 1, 2, 5, 9, 10], vec![0, 3]] {
        assert_eq!(parse_list(&list(&cpus)), cpus);
    }
}

/// What `parse_list` means, by way of the standard library's own splitting.
fn read_list(text: &str) -> Vec<usize> {
    let mut out = Vec::new();
    for part in text.trim().split(',').filter(|p| !p.is_empty()) {
        match part.split_once('-') {
            Some((lo, hi)) => {
                if let (Ok(lo), Ok(hi)) = (lo.parse::<usize>(), hi.parse::<usize>()) {
                    out.extend(lo..=hi);
                }
            }
            None => out.extend(part.parse::<usize>()),
        }
    }
    out
}

#[test]
fn parse_list_splits_the_way_the_standard_library_does() {
    for text in [
        "",
        " \u{2003}1,2\u{85}",
        ",,",
        "1,,2",
        "+3",
        "+",
        "1-+2",
        "--",
        "1-2-3",
        "-1",
        "1-",
        " 1 , 2 ",
        "18446744073709551615",
        "18446744073709551616",
        "00007",
        "\u{661}",
        "3-3",
        "\n4\t",
    ] {
        assert_eq!(parse_list(text), read_list(text), "{text:?}");
    }
}

#[test]
fn a_list_is_as_wide_as_its_guess_at_the_low_end() {
    assert_eq!(list_width(0), 0);
    assert_eq!(list_width(1), list(&[0]).len());
    assert_eq!(list_width(2), list(&[0, 2]).len());
    assert_eq!(list_width(6), list(&[0, 2, 4, 6, 8, 10]).len());
}

#[test]
fn the_pool_holds_one_cpu_per_core() {
    let shared = vec![vec![0, 2], vec![1, 3], vec![0, 2], vec![1, 3]];
    assert_eq!(one_per_core(&[0, 1, 2, 3], &shared), [0, 1]);
    // a core whose first cpu is not allowed is spoken for by its second
    assert_eq!(one_per_core(&[2, 3], &[vec![0, 2], vec![1, 3]]), [2, 3]);
    assert_eq!(one_per_core(&[], &[]), Vec::<usize>::new());
}

#[test]
fn nodes_are_read_off_directory_names_and_cpulists() {
    assert_eq!(node_number("node0"), Some(0));
    assert_eq!(node_number("node12"), Some(12));
    assert_eq!(node_number("node"), None);
    assert_eq!(node_number("nodes"), None);
    assert_eq!(node_number("has_cpu"), None);
    let mut map = BTreeMap::new();
    chart(&mut map, 0, "0-1\n");
    chart(&mut map, 1, "1,2\n");
    assert_eq!(map, BTreeMap::from([(0, 0), (1, 1), (2, 1)]));
}

#[test]
fn mems_allowed_is_one_line_of_many() {
    let status = "Name:\tsh\nMems_allowed:\t3\nMems_allowed_list:\t0-1\nThreads:\t1\n";
    assert_eq!(mems_allowed(status), [0, 1]);
    assert_eq!(mems_allowed("Name:\tsh\n"), Vec::<usize>::new());
    assert_eq!(mems_allowed(""), Vec::<usize>::new());
}

#[test]
fn a_mask_leaves_out_what_it_has_no_room_for() {
    assert_eq!(mask(&[0, 2, 8, 3], 8), [0, 2, 3]);
    assert_eq!(mask(&[], 8), Vec::<usize>::new());
}

#[test]
fn a_nodemask_reaches_past_its_first_word() {
    assert_eq!(nodemask(&[3, 70]), (vec![0b1000, 1 << 6], 72));
    assert_eq!(nodemask(&[63]), (vec![1 << 63], 65));
}

#[test]
fn a_cpu_with_no_topology_is_its_own_sibling() {
    assert_eq!(siblings(3, Some("1,3\n")), [1, 3]);
    assert_eq!(siblings(3, None), [3]);
}

#[test]
fn releasing_one_of_several_leases_leaves_the_others_held() {
    let mut cores = Cores::with_pool(vec![0, 2, 4, 6, 8]);
    let a = held(cores.acquire(2, || false)).expect("two of five");
    let b = held(cores.acquire(1, || false)).expect("one of three");
    let c = held(cores.acquire(2, || false)).expect("the rest");
    assert!(cores.try_acquire(1).is_none());

    cores.release(b.cpus());
    let again = cores.try_acquire(1).expect("as many as came back");
    assert_eq!(again.cpus(), b.cpus());
    assert!(cores.try_acquire(1).is_none(), "the others are still held");

    cores.release(a.cpus());
    let mut still = c.cpus().to_vec();
    still.extend(again.cpus());
    assert_eq!(cores.taken, still);
}
