//! Names in order, each once, and values kept under them.

use vstd::prelude::*;

use crate::text;

verus! {

/// Names in order, each once.
#[derive(Clone, Debug)]
pub struct Names {
    names: Vec<String>,
}

/// Values kept under names, in the order of the names.
#[derive(Clone, Debug)]
pub struct Fields {
    entries: Vec<(String, String)>,
}

/// Whether `s` is in order with nothing in it twice.
pub open spec fn in_order(s: Seq<Seq<char>>) -> bool {
    forall|i: int, j: int|
        0 <= i < j < s.len() ==> text::before(#[trigger] s[i], #[trigger] s[j])
}

/// `s` with `x` put in its place, or `s` itself if `x` is there already.
pub open spec fn named(s: Seq<Seq<char>>, x: Seq<char>) -> Seq<Seq<char>>
    decreases s.len(),
{
    if s.len() == 0 || text::before(s.last(), x) {
        s.push(x)
    } else if s.last() == x {
        s
    } else {
        named(s.drop_last(), x).push(s.last())
    }
}

/// `s` with `value` under `key`, in place of whatever was there.
pub open spec fn put(s: Seq<(Seq<char>, Seq<char>)>, key: Seq<char>, value: Seq<char>) -> Seq<
    (Seq<char>, Seq<char>),
>
    decreases s.len(),
{
    if s.len() == 0 || text::before(s.last().0, key) {
        s.push((key, value))
    } else if s.last().0 == key {
        s.drop_last().push((key, value))
    } else {
        put(s.drop_last(), key, value).push(s.last())
    }
}

/// What is kept under `key`, if anything is.
pub open spec fn kept(s: Seq<(Seq<char>, Seq<char>)>, key: Seq<char>) -> Option<Seq<char>>
    decreases s.len(),
{
    if s.len() == 0 {
        None
    } else if s.last().0 == key {
        Some(s.last().1)
    } else {
        kept(s.drop_last(), key)
    }
}

/// The names that values are kept under.
pub open spec fn keys(s: Seq<(Seq<char>, Seq<char>)>) -> Seq<Seq<char>> {
    s.map_values(|e: (Seq<char>, Seq<char>)| e.0)
}

impl View for Names {
    type V = Seq<Seq<char>>;

    closed spec fn view(&self) -> Seq<Seq<char>> {
        text::texts(self.names@)
    }
}

impl View for Fields {
    type V = Seq<(Seq<char>, Seq<char>)>;

    closed spec fn view(&self) -> Seq<(Seq<char>, Seq<char>)> {
        self.entries@.map_values(|e: (String, String)| (e.0@, e.1@))
    }
}

impl Names {
    /// Whether the names are in order, each once.
    pub open spec fn well_formed(&self) -> bool {
        in_order(self@)
    }

    pub fn new() -> (r: Names)
        ensures
            r@ == Seq::<Seq<char>>::empty(),
            r.well_formed(),
    {
        let r = Names { names: Vec::new() };
        assert(r@ == Seq::<Seq<char>>::empty());
        r
    }

    /// Put `name` among these.
    pub fn insert(&mut self, name: String)
        ensures
            final(self)@ == named(old(self)@, name@),
            old(self).well_formed() ==> final(self).well_formed(),
    {
        let ghost s = self@;
        proof {
            if self.well_formed() {
                law_names_stay_in_order(s, name@);
            }
        }
        let mut at: usize = self.names.len();
        assert(s.take(at as int) == s);
        assert(named(s, name@) + s.skip(at as int) == named(s, name@));
        while at > 0 && !text::sorts_before(self.names[at - 1].as_str(), name.as_str())
            && self.names[at - 1] != name
            invariant
                at <= self.names@.len(),
                self@ == s,
                named(s, name@) == named(s.take(at as int), name@) + s.skip(at as int),
            decreases at,
        {
            proof {
                let t = s.take(at as int);
                assert(t.last() == self.names@[at - 1]@);
                assert(t.drop_last() == s.take(at - 1));
                assert(named(s.take(at - 1), name@).push(s[at - 1]) + s.skip(at as int) == named(
                    s.take(at - 1),
                    name@,
                ) + s.skip(at - 1));
            }
            at = at - 1;
        }
        let ghost t = s.take(at as int);
        if at > 0 && self.names[at - 1] == name {
            proof {
                assert(t.last() == name@);
                text::lemma_before_total(name@, name@);
                assert(t + s.skip(at as int) == s);
            }
        } else {
            assert(at > 0 ==> t.last() == self.names@[at - 1]@);
            assert(named(t, name@) == t.push(name@));
            self.names.insert(at, name);
            assert(self@ == t.push(name@) + s.skip(at as int));
        }
    }

    /// Put each of `others` among these.
    pub fn add_names(&mut self, others: &Names)
        requires
            old(self).well_formed(),
        ensures
            final(self).well_formed(),
            forall|y: Seq<char>| #[trigger]
                final(self)@.contains(y) <==> old(self)@.contains(y) || others@.contains(y),
    {
        let mut i: usize = 0;
        while i < others.len()
            invariant
                i <= others@.len(),
                self.well_formed(),
                forall|y: Seq<char>| #[trigger]
                    self@.contains(y) <==> old(self)@.contains(y) || others@.take(
                        i as int,
                    ).contains(y),
            decreases others@.len() - i,
        {
            let name = others.at(i).to_owned();
            proof {
                law_names_stay_in_order(self@, name@);
                lemma_take(others@, i as int);
            }
            self.insert(name);
            i = i + 1;
        }
        assert(others@.take(i as int) == others@);
    }

    /// Put each name that a value of `fields` is kept under among these.
    pub fn add_keys(&mut self, fields: &Fields)
        requires
            old(self).well_formed(),
        ensures
            final(self).well_formed(),
            forall|y: Seq<char>| #[trigger]
                final(self)@.contains(y) <==> old(self)@.contains(y) || keys(fields@).contains(y),
    {
        let ghost all = keys(fields@);
        let mut i: usize = 0;
        while i < fields.len()
            invariant
                i <= fields@.len(),
                all == keys(fields@),
                self.well_formed(),
                forall|y: Seq<char>| #[trigger]
                    self@.contains(y) <==> old(self)@.contains(y) || all.take(i as int).contains(y),
            decreases fields@.len() - i,
        {
            let name = fields.key(i).to_owned();
            proof {
                assert(name@ == all[i as int]);
                law_names_stay_in_order(self@, name@);
                lemma_take(all, i as int);
            }
            self.insert(name);
            i = i + 1;
        }
        assert(all.take(i as int) == all);
    }

    /// Whether `name` is among these.
    pub fn contains(&self, name: &str) -> (b: bool)
        ensures
            b == self@.contains(name@),
    {
        let sought = name.to_owned();
        let mut i: usize = 0;
        while i < self.names.len()
            invariant
                i <= self.names@.len(),
                sought@ == name@,
                forall|k: int| 0 <= k < i ==> self@[k] != name@,
            decreases self.names@.len() - i,
        {
            if self.names[i] == sought {
                assert(self@[i as int] == name@);
                return true;
            }
            i = i + 1;
        }
        false
    }

    pub fn len(&self) -> (n: usize)
        ensures
            n == self@.len(),
    {
        self.names.len()
    }

    /// The name at `i`.
    pub fn at(&self, i: usize) -> (s: &str)
        requires
            i < self@.len(),
        ensures
            s@ == self@[i as int],
    {
        self.names[i].as_str()
    }
}

impl Fields {
    /// Whether the names are in order, each once.
    pub open spec fn well_formed(&self) -> bool {
        in_order(keys(self@))
    }

    pub fn new() -> (r: Fields)
        ensures
            r@ == Seq::<(Seq<char>, Seq<char>)>::empty(),
            r.well_formed(),
    {
        let r = Fields { entries: Vec::new() };
        assert(r@ == Seq::<(Seq<char>, Seq<char>)>::empty());
        r
    }

    /// Keep `value` under `key`, in place of whatever was there.
    pub fn insert(&mut self, key: String, value: String)
        ensures
            final(self)@ == put(old(self)@, key@, value@),
            old(self).well_formed() ==> final(self).well_formed(),
    {
        let ghost s = self@;
        proof {
            if self.well_formed() {
                law_fields_keep_what_is_put(s, key@, value@);
            }
        }
        let mut at: usize = self.entries.len();
        assert(s.take(at as int) == s);
        assert(put(s, key@, value@) + s.skip(at as int) == put(s, key@, value@));
        while at > 0 && !text::sorts_before(self.entries[at - 1].0.as_str(), key.as_str())
            && self.entries[at - 1].0 != key
            invariant
                at <= self.entries@.len(),
                self@ == s,
                put(s, key@, value@) == put(s.take(at as int), key@, value@) + s.skip(at as int),
            decreases at,
        {
            proof {
                let t = s.take(at as int);
                assert(t.last() == s[at - 1]);
                assert(t.last().0 == self.entries@[at - 1].0@);
                assert(t.drop_last() == s.take(at - 1));
                assert(put(s.take(at - 1), key@, value@).push(s[at - 1]) + s.skip(at as int) == put(
                    s.take(at - 1),
                    key@,
                    value@,
                ) + s.skip(at - 1));
            }
            at = at - 1;
        }
        let ghost t = s.take(at as int);
        if at > 0 && self.entries[at - 1].0 == key {
            proof {
                assert(t.last() == s[at - 1]);
                assert(t.last().0 == key@);
                text::lemma_before_total(key@, key@);
            }
            let ghost pair = (key@, value@);
            self.entries.set(at - 1, (key, value));
            assert(self@ == t.drop_last().push(pair) + s.skip(at as int));
        } else {
            assert(at > 0 ==> t.last() == s[at - 1]);
            assert(put(t, key@, value@) == t.push((key@, value@)));
            let ghost pair = (key@, value@);
            self.entries.insert(at, (key, value));
            assert(self@ == t.push(pair) + s.skip(at as int));
        }
    }

    /// What is kept under `key`, if anything is.
    pub fn get(&self, key: &str) -> (r: Option<&str>)
        ensures
            match kept(self@, key@) {
                Some(value) => r is Some && r->0@ == value,
                None => r is None,
            },
    {
        let sought = key.to_owned();
        let mut i: usize = self.entries.len();
        assert(self@.take(i as int) == self@);
        while i > 0
            invariant
                i <= self.entries@.len(),
                sought@ == key@,
                kept(self@, key@) == kept(self@.take(i as int), key@),
            decreases i,
        {
            assert(self@.take(i as int).last() == self@[i - 1]);
            assert(self@.take(i as int).drop_last() == self@.take(i - 1));
            if self.entries[i - 1].0 == sought {
                return Some(self.entries[i - 1].1.as_str());
            }
            i = i - 1;
        }
        None
    }

    pub fn len(&self) -> (n: usize)
        ensures
            n == self@.len(),
    {
        self.entries.len()
    }

    /// The name at `i`.
    pub fn key(&self, i: usize) -> (s: &str)
        requires
            i < self@.len(),
        ensures
            s@ == self@[i as int].0,
    {
        self.entries[i].0.as_str()
    }

    /// The value at `i`.
    pub fn value(&self, i: usize) -> (s: &str)
        requires
            i < self@.len(),
        ensures
            s@ == self@[i as int].1,
    {
        self.entries[i].1.as_str()
    }
}

proof fn lemma_last(s: Seq<Seq<char>>, y: Seq<char>)
    requires
        s.len() > 0,
    ensures
        s.contains(y) <==> s.drop_last().contains(y) || y == s.last(),
{
    let t = s.drop_last();
    if t.contains(y) {
        let i = choose|i: int| 0 <= i < t.len() && t[i] == y;
        assert(s[i] == y);
    }
    if s.contains(y) {
        let i = choose|i: int| 0 <= i < s.len() && s[i] == y;
        if i < s.len() - 1 {
            assert(t[i] == y);
        }
    }
    assert(s[s.len() - 1] == s.last());
}

proof fn lemma_take(s: Seq<Seq<char>>, i: int)
    requires
        0 <= i < s.len(),
    ensures
        forall|y: Seq<char>| #[trigger]
            s.take(i + 1).contains(y) <==> s.take(i).contains(y) || y == s[i],
{
    assert forall|y: Seq<char>| #[trigger]
        s.take(i + 1).contains(y) <==> s.take(i).contains(y) || y == s[i] by {
        lemma_last(s.take(i + 1), y);
        assert(s.take(i + 1).drop_last() == s.take(i));
    }
}

/// Names in order are settled by what they are: two lists of the same names
/// are the same list.
pub proof fn law_names_in_order_are_settled(a: Seq<Seq<char>>, b: Seq<Seq<char>>)
    requires
        in_order(a),
        in_order(b),
        forall|y: Seq<char>| #[trigger] a.contains(y) <==> b.contains(y),
    ensures
        a == b,
    decreases a.len(),
{
    if a.len() == 0 {
        if b.len() > 0 {
            assert(b.contains(b[0]));
            assert(a.contains(b[0]));
        }
    } else if b.len() == 0 {
        assert(a.contains(a[0]));
    } else {
        let x = a.last();
        let y = b.last();
        assert(a.contains(x) && b.contains(y));
        assert(a.contains(y) && b.contains(x));
        let i = choose|i: int| 0 <= i < b.len() && b[i] == x;
        let j = choose|j: int| 0 <= j < a.len() && a[j] == y;
        text::lemma_before_total(x, y);
        if i < b.len() - 1 {
            assert(text::before(b[i], b[b.len() - 1]));
            if j < a.len() - 1 {
                assert(text::before(a[j], a[a.len() - 1]));
            }
        }
        assert(x == y);
        let a1 = a.drop_last();
        let b1 = b.drop_last();
        assert forall|i: int, j: int| 0 <= i < j < a1.len() implies text::before(
            #[trigger] a1[i],
            #[trigger] a1[j],
        ) by {
            assert(text::before(a[i], a[j]));
        }
        assert forall|i: int, j: int| 0 <= i < j < b1.len() implies text::before(
            #[trigger] b1[i],
            #[trigger] b1[j],
        ) by {
            assert(text::before(b[i], b[j]));
        }
        assert forall|z: Seq<char>| #[trigger] a1.contains(z) <==> b1.contains(z) by {
            lemma_last(a, z);
            lemma_last(b, z);
            text::lemma_before_total(x, x);
            if a1.contains(x) {
                let k = choose|k: int| 0 <= k < a1.len() && a1[k] == x;
                assert(text::before(a[k], a[a.len() - 1]));
            }
            if b1.contains(x) {
                let k = choose|k: int| 0 <= k < b1.len() && b1[k] == x;
                assert(text::before(b[k], b[b.len() - 1]));
            }
            assert(a.contains(z) <==> b.contains(z));
        }
        law_names_in_order_are_settled(a1, b1);
        assert(a == a1.push(x));
        assert(b == b1.push(y));
    }
}

/// Names stay in order as one is put among them, and only that one is added.
pub proof fn law_names_stay_in_order(s: Seq<Seq<char>>, x: Seq<char>)
    requires
        in_order(s),
    ensures
        in_order(named(s, x)),
        forall|y: Seq<char>| #[trigger] named(s, x).contains(y) <==> s.contains(y) || y == x,
    decreases s.len(),
{
    let r = named(s, x);
    if s.len() == 0 || text::before(s.last(), x) {
        assert forall|y: Seq<char>| #[trigger] r.contains(y) <==> s.contains(y) || y == x by {
            lemma_last(r, y);
            assert(r.drop_last() == s);
        }
        assert forall|i: int, j: int| 0 <= i < j < r.len() implies text::before(
            #[trigger] r[i],
            #[trigger] r[j],
        ) by {
            if j == s.len() && i < s.len() - 1 {
                assert(text::before(s[i], s[s.len() - 1]));
                text::lemma_before_transitive(s[i], s.last(), x);
            }
        }
    } else if s.last() == x {
        lemma_last(s, x);
    } else {
        let t = s.drop_last();
        assert(in_order(t)) by {
            assert forall|i: int, j: int| 0 <= i < j < t.len() implies text::before(
                #[trigger] t[i],
                #[trigger] t[j],
            ) by {
                assert(text::before(s[i], s[j]));
            }
        }
        law_names_stay_in_order(t, x);
        let u = named(t, x);
        assert forall|y: Seq<char>| #[trigger] r.contains(y) <==> s.contains(y) || y == x by {
            lemma_last(r, y);
            lemma_last(s, y);
            assert(r.drop_last() == u);
            assert(u.contains(y) <==> t.contains(y) || y == x);
        }
        text::lemma_before_total(s.last(), x);
        assert forall|i: int, j: int| 0 <= i < j < r.len() implies text::before(
            #[trigger] r[i],
            #[trigger] r[j],
        ) by {
            if j == u.len() {
                assert(u.contains(u[i]));
                if t.contains(u[i]) {
                    let k = choose|k: int| 0 <= k < t.len() && t[k] == u[i];
                    assert(text::before(s[k], s[s.len() - 1]));
                }
            } else {
                assert(r[i] == u[i] && r[j] == u[j]);
            }
        }
    }
}

/// A field is there once it has been put, the others are as they were, and the
/// names are still in order.
pub proof fn law_fields_keep_what_is_put(
    s: Seq<(Seq<char>, Seq<char>)>,
    key: Seq<char>,
    value: Seq<char>,
)
    requires
        in_order(keys(s)),
    ensures
        keys(put(s, key, value)) == named(keys(s), key),
        in_order(keys(put(s, key, value))),
        kept(put(s, key, value), key) == Some(value),
        forall|other: Seq<char>|
            other != key ==> #[trigger] kept(put(s, key, value), other) == kept(s, other),
{
    lemma_put(s, key, value);
    law_names_stay_in_order(keys(s), key);
}

proof fn lemma_put(s: Seq<(Seq<char>, Seq<char>)>, key: Seq<char>, value: Seq<char>)
    requires
        in_order(keys(s)),
    ensures
        keys(put(s, key, value)) == named(keys(s), key),
        kept(put(s, key, value), key) == Some(value),
        forall|other: Seq<char>|
            other != key ==> #[trigger] kept(put(s, key, value), other) == kept(s, other),
    decreases s.len(),
{
    let r = put(s, key, value);
    if s.len() == 0 || text::before(s.last().0, key) {
        assert(keys(r) == keys(s).push(key));
        assert(s.len() > 0 ==> keys(s).last() == s.last().0);
        assert(r.drop_last() == s);
    } else if s.last().0 == key {
        text::lemma_before_total(key, key);
        assert(keys(r) == keys(s));
        assert(keys(s).last() == key);
        assert(r.drop_last() == s.drop_last());
    } else {
        let t = s.drop_last();
        assert(keys(t) == keys(s).drop_last());
        assert(in_order(keys(t))) by {
            assert forall|i: int, j: int| 0 <= i < j < keys(t).len() implies text::before(
                #[trigger] keys(t)[i],
                #[trigger] keys(t)[j],
            ) by {
                assert(text::before(keys(s)[i], keys(s)[j]));
            }
        }
        lemma_put(t, key, value);
        assert(r.drop_last() == put(t, key, value));
        assert(keys(s).last() == s.last().0);
        assert(keys(r) == keys(put(t, key, value)).push(s.last().0));
        assert forall|other: Seq<char>| other != key implies #[trigger] kept(r, other) == kept(
            s,
            other,
        ) by {
            assert(kept(put(t, key, value), other) == kept(t, other));
        }
    }
}

/// What is kept under a name is the value of an entry of that name, and nothing
/// is kept where there is none.
pub proof fn law_what_is_kept_is_an_entry(s: Seq<(Seq<char>, Seq<char>)>, key: Seq<char>)
    ensures
        kept(s, key) is Some <==> keys(s).contains(key),
        kept(s, key) is Some ==> s.contains((key, kept(s, key)->0)),
        keys(s).len() == s.len() && forall|i: int|
            0 <= i < s.len() ==> #[trigger] keys(s)[i] == s[i].0,
        in_order(keys(s)) ==> forall|i: int|
            0 <= i < s.len() && (#[trigger] s[i]).0 == key ==> kept(s, key) == Some(s[i].1),
    decreases s.len(),
{
    if s.len() > 0 {
        let t = s.drop_last();
        law_what_is_kept_is_an_entry(t, key);
        assert(keys(s).drop_last() == keys(t));
        assert(keys(s).last() == s.last().0);
        lemma_last(keys(s), key);
        if kept(s, key) is Some {
            if s.last().0 == key {
                assert(s[s.len() - 1] == (key, kept(s, key)->0));
            } else {
                let k = choose|k: int| 0 <= k < t.len() && t[k] == (key, kept(t, key)->0);
                assert(s[k] == t[k]);
            }
        }
        if in_order(keys(s)) {
            assert forall|i: int, j: int| 0 <= i < j < keys(t).len() implies text::before(
                #[trigger] keys(t)[i],
                #[trigger] keys(t)[j],
            ) by {
                assert(text::before(keys(s)[i], keys(s)[j]));
            }
            assert forall|i: int| 0 <= i < s.len() && (#[trigger] s[i]).0 == key implies kept(
                s,
                key,
            ) == Some(s[i].1) by {
                if i < t.len() {
                    assert(t[i] == s[i]);
                    assert(text::before(keys(s)[i], keys(s)[s.len() - 1]));
                    text::lemma_before_total(key, key);
                }
            }
        }
    }
}

} // verus!
