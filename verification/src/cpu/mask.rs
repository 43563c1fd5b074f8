//! Sets of cpus and nodes in the form the kernel takes them.

use vstd::prelude::*;

verus! {

/// The cpus of `cpus` below `size`, in order.
pub open spec fn inside(cpus: Seq<usize>, size: usize) -> Seq<usize>
    decreases cpus.len(),
{
    if cpus.len() == 0 {
        cpus
    } else {
        let rest = inside(cpus.drop_last(), size);
        if cpus.last() < size {
            rest.push(cpus.last())
        } else {
            rest
        }
    }
}

/// The cpus to set in an affinity mask that has room for `size` of them.
//
// a cpu at or past the size would be written outside the
// mask. the kernel does not name one, a pool from elsewhere
// could
pub fn mask(cpus: &[usize], size: usize) -> (v: Vec<usize>)
    ensures
        v@ == inside(cpus@, size),
        forall|i: int| 0 <= i < v@.len() ==> v@[i] < size,
{
    let mut v: Vec<usize> = Vec::new();
    let mut i: usize = 0;
    while i < cpus.len()
        invariant
            i <= cpus@.len(),
            v@ == inside(cpus@.take(i as int), size),
            forall|k: int| 0 <= k < v@.len() ==> v@[k] < size,
        decreases cpus@.len() - i,
    {
        assert(cpus@.take(i + 1).drop_last() == cpus@.take(i as int));
        if cpus[i] < size {
            v.push(cpus[i]);
        }
        i = i + 1;
    }
    assert(cpus@.take(cpus@.len() as int) == cpus@);
    v
}

/// Whether bit `n` of a mask is set, counting from the low bit of the first
/// word.
pub open spec fn has_bit(mask: Seq<u64>, n: nat) -> bool {
    n / 64 < mask.len() && mask[(n / 64) as int] & (1u64 << ((n % 64) as u64)) != 0
}

/// The highest of `nodes`.
pub open spec fn highest(nodes: Seq<usize>) -> usize
    decreases nodes.len(),
{
    if nodes.len() == 0 {
        0
    } else {
        let rest = highest(nodes.drop_last());
        if nodes.last() > rest {
            nodes.last()
        } else {
            rest
        }
    }
}

proof fn lemma_highest(nodes: Seq<usize>)
    ensures
        forall|i: int| 0 <= i < nodes.len() ==> nodes[i] <= highest(nodes),
        nodes.len() > 0 ==> nodes.contains(highest(nodes)),
    decreases nodes.len(),
{
    if nodes.len() > 0 {
        let init = nodes.drop_last();
        lemma_highest(init);
        assert forall|i: int| 0 <= i < nodes.len() implies nodes[i] <= highest(nodes) by {
            if i < init.len() {
                assert(nodes[i] == init[i]);
            }
        }
        assert(nodes[nodes.len() - 1] == nodes.last());
        if init.len() > 0 {
            let k = choose|k: int| 0 <= k < init.len() && init[k] == highest(init);
            assert(nodes[k] == highest(init));
        }
    }
}

proof fn lemma_set_bit(word: u64, a: u64, b: u64)
    by (bit_vector)
    requires
        a < 64,
        b < 64,
    ensures
        (word | (1u64 << a)) & (1u64 << b) != 0 <==> (a == b || word & (1u64 << b) != 0),
{
}

proof fn lemma_no_bit(b: u64)
    by (bit_vector)
    ensures
        0u64 & (1u64 << b) == 0,
{
}

/// The node mask for `nodes`, and the `maxnode` to pass `set_mempolicy` with
/// it: nothing for no nodes.
//
// the kernel decrements maxnode before reading the mask, so
// it reads maxnode - 1 bits. highest + 1 drops the top node's
// bit, and a lone node then reads as an empty mask: an error
// for bind, a silent local policy for preferred
pub fn nodemask(nodes: &[usize]) -> (r: (Vec<u64>, usize))
    requires
        forall|i: int| 0 <= i < nodes@.len() ==> nodes@[i] + 2 <= usize::MAX,
    ensures
        nodes@.len() == 0 ==> r.0@.len() == 0 && r.1 == 0,
        nodes@.len() > 0 ==> r.1 == highest(nodes@) + 2 && r.0@.len() == (highest(nodes@) + 64)
            / 64,
        forall|n: usize| #[trigger] has_bit(r.0@, n as nat) <==> nodes@.contains(n),
        nodes@.len() > 0 ==> forall|n: usize| nodes@.contains(n) ==> n < r.1 - 1,
{
    if nodes.len() == 0 {
        return (Vec::new(), 0);
    }
    proof {
        lemma_highest(nodes@);
    }
    let mut high: usize = 0;
    let mut i: usize = 0;
    while i < nodes.len()
        invariant
            i <= nodes@.len(),
            high == highest(nodes@.take(i as int)),
        decreases nodes@.len() - i,
    {
        assert(nodes@.take(i + 1).drop_last() == nodes@.take(i as int));
        if nodes[i] > high {
            high = nodes[i];
        }
        i = i + 1;
    }
    assert(nodes@.take(nodes@.len() as int) == nodes@);
    assert(high + 2 <= usize::MAX);
    let words: usize = high / 64 + 1;
    assert(words == (high + 64) / 64);
    let mut mask: Vec<u64> = Vec::new();
    let mut i: usize = 0;
    while i < words
        invariant
            i <= words,
            mask@.len() == i,
            forall|k: int| 0 <= k < i ==> mask@[k] == 0,
        decreases words - i,
    {
        mask.push(0);
        i = i + 1;
    }
    assert forall|n: usize| !has_bit(mask@, n as nat) by {
        lemma_no_bit((n as nat % 64) as u64);
    }
    let mut i: usize = 0;
    while i < nodes.len()
        invariant
            i <= nodes@.len(),
            words == high / 64 + 1,
            mask@.len() == words,
            forall|k: int| 0 <= k < nodes@.len() ==> nodes@[k] <= high,
            forall|n: usize| #[trigger]
                has_bit(mask@, n as nat) <==> nodes@.take(i as int).contains(n),
        decreases nodes@.len() - i,
    {
        let node: usize = nodes[i];
        let word: usize = node / 64;
        let bit: u64 = (node % 64) as u64;
        let ghost was = mask@;
        assert(nodes@[i as int] <= high);
        assert(word < words);
        mask.set(word, mask[word] | (1u64 << bit));
        proof {
            let done = nodes@.take(i as int);
            let next = nodes@.take(i + 1);
            assert forall|n: usize| #[trigger] has_bit(mask@, n as nat) <==> next.contains(n) by {
                crate::order::lemma_but_last(next, n);
                assert(next.drop_last() == done);
                assert(has_bit(was, n as nat) <==> done.contains(n));
                if n / 64 == word {
                    lemma_set_bit(was[word as int], bit, (n as nat % 64) as u64);
                    assert(n == 64 * (n / 64) + n % 64);
                    assert(node == 64 * (node / 64) + node % 64);
                } else if (n as nat) / 64 < words {
                    assert(mask@[n as int / 64] == was[n as int / 64]);
                }
            }
        }
        i = i + 1;
    }
    assert(nodes@.take(nodes@.len() as int) == nodes@);
    let n: usize = high + 2;
    assert forall|x: usize| nodes@.contains(x) implies x < n - 1 by {
        let k = choose|k: int| 0 <= k < nodes@.len() && nodes@[k] == x;
        assert(nodes@[k] <= highest(nodes@));
    }
    (mask, n)
}

/// A mask sets just the cpus there is room for, in the order they came.
pub proof fn law_a_mask_leaves_out_what_is_past_it(cpus: Seq<usize>, size: usize)
    ensures
        inside(cpus, size) == cpus.filter(|cpu: usize| cpu < size),
    decreases cpus.len(),
{
    reveal(Seq::filter);
    if cpus.len() > 0 {
        law_a_mask_leaves_out_what_is_past_it(cpus.drop_last(), size);
    }
}

/// The highest of some nodes is one of them and none of them is higher.
pub proof fn law_the_highest_is_among_them(nodes: Seq<usize>)
    requires
        nodes.len() > 0,
    ensures
        nodes.contains(highest(nodes)),
        forall|i: int| 0 <= i < nodes.len() ==> nodes[i] <= highest(nodes),
{
    lemma_highest(nodes);
}

/// A bit of a mask is the one that its number counts to from the low bit of the
/// first word: word by word, and within a word by powers of two.
pub proof fn law_a_bit_is_where_its_number_says(mask: Seq<u64>, n: nat)
    requires
        n < 64 * mask.len(),
    ensures
        has_bit(mask, n) <==> (mask[n as int / 64] as nat / vstd::arithmetic::power2::pow2(n % 64))
            % 2 == 1,
{
    let word = mask[n as int / 64];
    let b = (n % 64) as u64;
    assert(word & (1u64 << b) != 0 <==> (word >> b) % 2 == 1) by (bit_vector)
        requires
            b < 64,
    ;
    vstd::bits::lemma_u64_shr_is_div(word, b);
}

} // verus!
