//! Numbers in ascending order, each said once.

use vstd::prelude::*;

verus! {

/// Whether `s` rises strictly: sorted, and nothing in it twice.
pub open spec fn rising(s: Seq<usize>) -> bool {
    forall|i: int, j: int| 0 <= i < j < s.len() ==> s[i] < s[j]
}

/// `s` with `x` put in its place, or `s` itself if `x` is there already.
pub open spec fn settle(s: Seq<usize>, x: usize) -> Seq<usize>
    decreases s.len(),
{
    if s.len() == 0 || s.last() < x {
        s.push(x)
    } else if s.last() == x {
        s
    } else {
        settle(s.drop_last(), x).push(s.last())
    }
}

/// The numbers of `s` in ascending order, each once.
pub open spec fn ascending(s: Seq<usize>) -> Seq<usize>
    decreases s.len(),
{
    if s.len() == 0 {
        s
    } else {
        settle(ascending(s.drop_last()), s.last())
    }
}

/// What a sequence holds is what comes before its last number, and that number.
pub proof fn lemma_but_last(s: Seq<usize>, y: usize)
    requires
        s.len() > 0,
    ensures
        s.contains(y) <==> s.drop_last().contains(y) || y == s.last(),
{
    let t = s.drop_last();
    if t.contains(y) {
        let i = choose|i: int| 0 <= i < t.len() && t[i] == y;
        assert(s[i] == y);
    }
    if s.contains(y) {
        let i = choose|i: int| 0 <= i < s.len() && s[i] == y;
        if i < s.len() - 1 {
            assert(t[i] == y);
        }
    }
    assert(s[s.len() - 1] == s.last());
}

/// Putting a number in its place keeps the order and adds only that number.
pub proof fn lemma_settle(s: Seq<usize>, x: usize)
    requires
        rising(s),
    ensures
        rising(settle(s, x)),
        forall|y: usize| settle(s, x).contains(y) <==> s.contains(y) || y == x,
        settle(s, x).len() == if s.contains(x) { s.len() } else { s.len() + 1 },
    decreases s.len(),
{
    let r = settle(s, x);
    if s.len() == 0 || s.last() < x {
        assert(r == s.push(x));
        assert forall|y: usize| r.contains(y) <==> s.contains(y) || y == x by {
            if s.contains(y) {
                let i = choose|i: int| 0 <= i < s.len() && s[i] == y;
                assert(r[i] == y);
            }
            assert(r[s.len() as int] == x);
        }
        if s.contains(x) {
            let i = choose|i: int| 0 <= i < s.len() && s[i] == x;
            assert(s[i] <= s.last());
        }
    } else if s.last() == x {
        assert(s[s.len() - 1] == x);
    } else {
        let t = s.drop_last();
        lemma_settle(t, x);
        let u = settle(t, x);
        assert(r == u.push(s.last()));
        assert forall|y: usize| r.contains(y) <==> s.contains(y) || y == x by {
            lemma_but_last(s, y);
            lemma_but_last(r, y);
            assert(r.drop_last() == u);
        }
        lemma_but_last(s, x);
        assert forall|i: int, j: int| 0 <= i < j < r.len() implies r[i] < r[j] by {
            if j == u.len() {
                assert(u.contains(u[i]));
                if t.contains(u[i]) {
                    let k = choose|k: int| 0 <= k < t.len() && t[k] == u[i];
                    assert(s[k] < s[s.len() - 1]);
                }
            }
        }
    }
}

/// Ascending order holds exactly the numbers it was given, each once.
pub proof fn lemma_ascending(s: Seq<usize>)
    ensures
        rising(ascending(s)),
        forall|y: usize| #[trigger] ascending(s).contains(y) <==> s.contains(y),
        ascending(s).len() <= s.len(),
    decreases s.len(),
{
    if s.len() > 0 {
        let t = s.drop_last();
        lemma_ascending(t);
        lemma_settle(ascending(t), s.last());
        assert forall|y: usize| #[trigger] ascending(s).contains(y) <==> s.contains(y) by {
            lemma_but_last(s, y);
            assert(ascending(t).contains(y) <==> t.contains(y));
        }
    }
}

/// Put `x` in its place in a rising sequence.
fn settle_in(v: &mut Vec<usize>, x: usize)
    requires
        rising(old(v)@),
    ensures
        final(v)@ == settle(old(v)@, x),
{
    let ghost s = v@;
    let mut at: usize = v.len();
    assert(s.take(at as int) == s);
    assert(settle(s, x) + s.skip(at as int) == settle(s, x));
    while at > 0 && v[at - 1] > x
        invariant
            at <= v@.len(),
            v@ == s,
            settle(s, x) == settle(s.take(at as int), x) + s.skip(at as int),
        decreases at,
    {
        proof {
            let t = s.take(at as int);
            assert(t.drop_last() == s.take(at - 1));
            assert(settle(t, x) == settle(s.take(at - 1), x).push(s[at - 1]));
            assert(settle(s.take(at - 1), x).push(s[at - 1]) + s.skip(at as int)
                == settle(s.take(at - 1), x) + s.skip(at - 1));
        }
        at = at - 1;
    }
    let ghost t = s.take(at as int);
    if at > 0 && v[at - 1] == x {
        assert(t.last() == x);
        assert(t + s.skip(at as int) == s);
    } else {
        assert(settle(t, x) == t.push(x));
        v.insert(at, x);
        assert(v@ == t.push(x) + s.skip(at as int));
    }
}

/// `s` in ascending order, each number once.
pub fn ascend(s: &[usize]) -> (v: Vec<usize>)
    ensures
        v@ == ascending(s@),
{
    let mut v: Vec<usize> = Vec::new();
    let mut i: usize = 0;
    while i < s.len()
        invariant
            i <= s@.len(),
            v@ == ascending(s@.take(i as int)),
        decreases s@.len() - i,
    {
        proof {
            lemma_ascending(s@.take(i as int));
            assert(s@.take(i + 1).drop_last() == s@.take(i as int));
        }
        settle_in(&mut v, s[i]);
        i = i + 1;
    }
    assert(s@.take(s@.len() as int) == s@);
    v
}

/// Whether `x` is among `s`.
pub fn holds(s: &[usize], x: usize) -> (b: bool)
    ensures
        b == s@.contains(x),
{
    let mut i: usize = 0;
    while i < s.len()
        invariant
            i <= s@.len(),
            forall|k: int| 0 <= k < i ==> s@[k] != x,
        decreases s@.len() - i,
    {
        if s[i] == x {
            return true;
        }
        i = i + 1;
    }
    false
}

} // verus!
