//! Paths, held as the text they display as.

use vstd::prelude::*;

use crate::text;

verus! {

/// Where the last part of `s` starts, past its last slash.
pub open spec fn last_part(s: Seq<char>) -> nat
    decreases s.len(),
{
    if s.len() == 0 {
        0
    } else if s.last() == '/' {
        s.len()
    } else {
        last_part(s.drop_last())
    }
}

/// The last part of the path `s` that is neither empty nor the directory
/// itself, unless there is none or it is the directory above.
pub open spec fn file_name(s: Seq<char>) -> Option<Seq<char>>
    decreases s.len(),
    via file_name_decreases
{
    let from = last_part(s);
    let part = s.skip(from as int);
    if part.len() == 0 || part == seq!['.'] {
        if from == 0 {
            None
        } else {
            file_name(s.take(from - 1))
        }
    } else if part == seq!['.', '.'] {
        None
    } else {
        Some(part)
    }
}

proof fn lemma_last_part(s: Seq<char>)
    ensures
        last_part(s) <= s.len(),
    decreases s.len(),
{
    if s.len() > 0 && s.last() != '/' {
        lemma_last_part(s.drop_last());
    }
}

#[via_fn]
proof fn file_name_decreases(s: Seq<char>) {
    lemma_last_part(s);
}

/// Where the last part of the first `to` characters of `v` starts.
fn part_start(v: &[char], to: usize) -> (from: usize)
    requires
        to <= v@.len(),
    ensures
        from <= to,
        from == last_part(v@.take(to as int)),
{
    let mut from: usize = to;
    while from > 0 && v[from - 1] != '/'
        invariant
            from <= to <= v@.len(),
            last_part(v@.take(to as int)) == last_part(v@.take(from as int)),
        decreases from,
    {
        assert(v@.take(from as int).drop_last() == v@.take(from - 1));
        from = from - 1;
    }
    from
}

/// The name a path ends in, if it ends in one.
pub fn name_of(path: &str) -> (r: Option<String>)
    ensures
        match file_name(path@) {
            Some(name) => r is Some && r->0@ == name,
            None => r is None,
        },
{
    let v = text::chars(path);
    let mut to: usize = v.len();
    assert(v@.take(to as int) == v@);
    loop
        invariant
            to <= v@.len(),
            v@ == path@,
            file_name(path@) == file_name(v@.take(to as int)),
        decreases to,
    {
        let from: usize = part_start(v.as_slice(), to);
        let ghost s = v@.take(to as int);
        let part = text::slice(v.as_slice(), from, to);
        assert(part@ == s.skip(from as int));
        if part.len() == 0 || (part.len() == 1 && part[0] == '.') {
            proof {
                if part@.len() == 1 {
                    assert(part@ == seq!['.']);
                }
            }
            if from == 0 {
                return None;
            }
            assert(s.take(from - 1) == v@.take(from - 1));
            to = from - 1;
        } else if part.len() == 2 && part[0] == '.' && part[1] == '.' {
            assert(part@ == seq!['.', '.']);
            return None;
        } else {
            return Some(text::string(part.as_slice()));
        }
    }
}

} // verus!
