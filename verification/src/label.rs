//! What a step is called.

use vstd::prelude::*;

use crate::text;

verus! {

/// A step by its number and its name: `[1](setup)`, or `[1]` without one.
pub open spec fn label_text(index: nat, name: Option<Seq<char>>) -> Seq<char> {
    let number = seq!['['] + text::decimal(index) + seq![']'];
    match name {
        Some(name) => number + seq!['('] + name + seq![')'],
        None => number,
    }
}

/// A step by its number and its name: `[1](setup)`, or `[1]` without one.
pub fn label(index: usize, name: Option<&str>) -> (s: String)
    ensures
        s@ == label_text(
            index as nat,
            match name {
                Some(name) => Some(name@),
                None => None,
            },
        ),
{
    let mut s = String::new();
    s.push('[');
    text::push_decimal(&mut s, index as u128);
    s.push(']');
    assert(s@ == seq!['['] + text::decimal(index as nat) + seq![']']);
    if let Some(name) = name {
        s.push('(');
        s.append(name);
        s.push(')');
    }
    s
}

} // verus!
