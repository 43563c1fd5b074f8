//! What holds of everything a step holds, and of what it is called.

use vstd::prelude::*;

use crate::closure::Closure;
use crate::cmd;
use crate::cmd::Cmd;
use crate::cpu::list;
use crate::cpu::list_laws;
use crate::item::Item;
use crate::label;
use crate::path;
use crate::status::{Policy, Status};
use crate::step;
use crate::step::{Items, Step, Strategy};
use crate::text;
use crate::value::Value;

verus! {

/// An item that is a command says of itself what the command does.
pub proof fn law_a_command_speaks_for_itself<F>(cmd: &Cmd)
    ensures
        ({
            let item = Item::<'_, F>::Cmd(cmd);
            &&& item.called() == cmd.called()
            &&& item.outcome() == cmd.status
            &&& item.carried() == cmd.fields@
            &&& item.tagged() == cmd.tags@
            &&& item.pasted() == Some(cmd.shell_line())
            &&& item.exited() == match cmd.status {
                Status::Finished(t) | Status::TimedOut(t) => Some(t.exit),
                _ => None,
            }
            &&& item.pinned() == Some(cmd.cpus@)
            &&& item.sits_on() == Some(cmd.nodes@)
            &&& cmd.nodes@.len() == 0 ==> item.ran_under() is None
            &&& cmd.nodes@.len() > 0 ==> item.ran_under() == cmd.policy.reads()
            &&& item.dropped() == match cmd.policy {
                Policy::Dropped(why) => Some(why@),
                _ => None,
            }
            &&& item.shares() == cmd.pooled
            &&& item.on_numa() == cmd.numa
            &&& cmd.cores is Some ==> item.asked() == cmd.cores->0
            &&& cmd.cores is None ==> item.asked() == 0
        }),
{
}

/// An item that is a closure says what the closure does, and has none of what
/// only a command has: no line, no exit, no cpus and no policy.
pub proof fn law_a_closure_has_nothing_of_a_command<F>(closure: &Closure<F>)
    ensures
        ({
            let item = Item::Closure(closure);
            &&& item.called() == closure.name@
            &&& item.outcome() == closure.status
            &&& item.carried() == closure.fields@
            &&& item.tagged() == closure.tags@
            &&& item.pasted() is None
            &&& item.exited() is None
            &&& item.pinned() is None
            &&& item.sits_on() is None
            &&& item.ran_under() is None
            &&& item.dropped() is None
            &&& !item.shares()
            &&& !item.on_numa()
            &&& item.asked() == 0
        }),
{
}

/// Something has failed if it could not start or returned an error, ran out of
/// time, or exited with anything but zero, and at no other time. What it cost is
/// known exactly where it ran to an exit or a deadline.
pub proof fn law_what_counts_as_a_failure(status: Status)
    ensures
        status.is_failure() <==> status is Failed || status is TimedOut || (
        status matches Status::Finished(t) && t.exit != 0),
        status.cost() is Some <==> status is TimedOut || status is Finished,
        status matches Status::Finished(t) ==> status.cost() == Some(t),
        status matches Status::TimedOut(t) ==> status.cost() == Some(t),
{
}

/// A policy says which nodes pages come from: the one preferred, or a list of
/// those they are bound to.
pub proof fn law_a_policy_names_its_nodes(policy: Policy)
    ensures
        policy is Refused <==> policy.reads() is None,
        policy is Default || policy is Dropped ==> policy.reads() == Some("default"@),
        policy matches Policy::Preferred(node) ==> policy.reads() == Some(
            "prefer:"@ + text::decimal(node as nat),
        ),
        policy matches Policy::Bound(nodes) ==> exists|words: Seq<char>|
            list_laws::names(words, nodes@) && policy.reads() == Some("bind:"@ + words),
{
    if let Policy::Bound(nodes) = policy {
        list_laws::law_taskset_reads_a_list_back(nodes@);
        assert(list_laws::names(list::list_text(nodes@), nodes@));
    }
}

/// A number given as a value is written as that number.
pub proof fn law_a_number_is_given_as_itself(
    a: u8,
    b: u16,
    c: u32,
    d: u64,
    e: usize,
    f: i8,
    g: i16,
    h: i32,
    i: i64,
    j: isize,
)
    ensures
        text::value(a.text()) == a && a.text() == text::decimal(a as nat),
        text::value(b.text()) == b && b.text() == text::decimal(b as nat),
        text::value(c.text()) == c && c.text() == text::decimal(c as nat),
        text::value(d.text()) == d && d.text() == text::decimal(d as nat),
        text::value(e.text()) == e && e.text() == text::decimal(e as nat),
        f.text() == text::signed(f as int),
        g.text() == text::signed(g as int),
        h.text() == text::signed(h as int),
        i.text() == text::signed(i as int),
        j.text() == text::signed(j as int),
{
    list_laws::lemma_decimal_reads_back(a as nat);
    list_laws::lemma_decimal_reads_back(b as nat);
    list_laws::lemma_decimal_reads_back(c as nat);
    list_laws::lemma_decimal_reads_back(d as nat);
    list_laws::lemma_decimal_reads_back(e as nat);
}

/// Text given as a value is that text, and a truth value is the word for it.
pub proof fn law_text_is_given_as_itself(s: &str, t: String, c: char, b: bool)
    ensures
        s.text() == s@,
        t.text() == t@,
        (&t).text() == t@,
        c.text() == seq![c],
        b.text() == if b {
            "true"@
        } else {
            "false"@
        },
{
}

proof fn lemma_up_to(a: Seq<char>, b: Seq<char>, x: Seq<char>, y: Seq<char>)
    requires
        forall|i: int| 0 <= i < a.len() ==> a[i] != ']',
        forall|i: int| 0 <= i < b.len() ==> b[i] != ']',
        a + seq![']'] + x == b + seq![']'] + y,
    ensures
        a == b,
        x == y,
{
    let s = a + seq![']'] + x;
    let t = b + seq![']'] + y;
    if a.len() < b.len() {
        assert(s[a.len() as int] == ']');
        assert(t[a.len() as int] == b[a.len() as int]);
    } else if b.len() < a.len() {
        assert(t[b.len() as int] == ']');
        assert(s[b.len() as int] == a[b.len() as int]);
    }
    assert(a == s.take(a.len() as int));
    assert(b == t.take(b.len() as int));
    assert(x == s.skip(a.len() as int + 1));
    assert(y == t.skip(b.len() as int + 1));
}

/// A step's label is its number in brackets and then its name, if it has one, so
/// two labels are the same only where both are.
pub proof fn law_labels_tell_steps_apart(
    a: nat,
    b: nat,
    x: Option<Seq<char>>,
    y: Option<Seq<char>>,
)
    ensures
        x is None ==> label::label_text(a, x) == "["@ + text::decimal(a) + "]"@,
        x is Some ==> label::label_text(a, x) == "["@ + text::decimal(a) + "]("@ + x->0 + ")"@,
        label::label_text(a, x) == label::label_text(b, y) ==> a == b && x == y,
{
    reveal_strlit("[");
    reveal_strlit("]");
    reveal_strlit("](");
    reveal_strlit(")");
    assert("["@ == seq!['['] && "]"@ == seq![']'] && ")"@ == seq![')']);
    assert("]("@ == seq![']', '(']);
    let da = text::decimal(a);
    let db = text::decimal(b);
    list_laws::lemma_decimal_reads_back(a);
    list_laws::lemma_decimal_reads_back(b);
    let la = label::label_text(a, x);
    let lb = label::label_text(b, y);
    let rx = match x {
        Some(x) => seq!['('] + x + seq![')'],
        None => Seq::<char>::empty(),
    };
    let ry = match y {
        Some(y) => seq!['('] + y + seq![')'],
        None => Seq::<char>::empty(),
    };
    if x is Some {
        assert(la == "["@ + da + "]("@ + x->0 + ")"@);
    }
    assert(la.skip(1) == da + seq![']'] + rx);
    assert(lb.skip(1) == db + seq![']'] + ry);
    if la == lb {
        assert forall|i: int| 0 <= i < da.len() implies da[i] != ']' by {
            assert(text::is_digit(da[i]));
        }
        assert forall|i: int| 0 <= i < db.len() implies db[i] != ']' by {
            assert(text::is_digit(db[i]));
        }
        lemma_up_to(da, db, rx, ry);
        assert(a == b);
        assert(rx.len() == ry.len());
        if x is Some {
            assert(rx.skip(1).drop_last() == x->0);
            assert(ry.skip(1).drop_last() == y->0);
        }
    }
}

/// A step that has a number goes by it and its name, and one that has none by
/// its name alone.
pub proof fn law_what_a_step_is_called<F>(step: &Step<F>)
    ensures
        step.index is Some && step.name is Some ==> step.called() == "["@ + text::decimal(
            step.index->0 as nat,
        ) + "]("@ + step.name->0@ + ")"@,
        step.index is Some && step.name is None ==> step.called() == "["@ + text::decimal(
            step.index->0 as nat,
        ) + "]"@,
        step.index is None && step.name is Some ==> step.called() == step.name->0@,
        step.index is None && step.name is None ==> step.called().len() == 0,
{
    if step.index is Some {
        law_labels_tell_steps_apart(step.index->0 as nat, 0, cmd::maybe(step.name), None);
    }
}

proof fn lemma_last_part(dir: Seq<char>, name: Seq<char>)
    requires
        !name.contains('/'),
    ensures
        path::last_part(dir + seq!['/'] + name) == dir.len() + 1,
        path::last_part(name) == 0,
    decreases name.len(),
{
    let s = dir + seq!['/'] + name;
    if name.len() > 0 {
        let front = name.drop_last();
        assert(name.contains(name[name.len() - 1]));
        assert forall|i: int| 0 <= i < front.len() implies front[i] != '/' by {
            assert(name.contains(name[i]));
        }
        lemma_last_part(dir, front);
        assert(s.drop_last() == dir + seq!['/'] + front);
    } else {
        assert(s.last() == '/');
    }
}

/// The name a path ends in is what follows its last slash, whatever comes before
/// it. Slashes at the end and the directory itself are passed over, the
/// directory above is no name, and neither is nothing at all.
pub proof fn law_a_path_ends_in_its_name(dir: Seq<char>, name: Seq<char>)
    requires
        !name.contains('/'),
        name.len() > 0,
        name != seq!['.'],
        name != seq!['.', '.'],
    ensures
        path::file_name(dir + "/"@ + name) == Some(name),
        path::file_name(name) == Some(name),
        path::file_name(dir + "/"@) == path::file_name(dir),
        path::file_name(dir + "/."@) == path::file_name(dir),
        path::file_name(dir + "/.."@) is None,
        path::file_name(""@) is None,
        path::file_name("."@) is None,
        path::file_name(".."@) is None,
{
    reveal_strlit("/");
    reveal_strlit("/.");
    reveal_strlit("/..");
    reveal_strlit("");
    reveal_strlit(".");
    reveal_strlit("..");
    let here = seq!['.'];
    let above = seq!['.', '.'];
    let none = Seq::<char>::empty();
    assert("/"@ == seq!['/']);
    assert("."@ == here && ".."@ == above && ""@ == none);
    lemma_last_part(dir, name);
    let s = dir + "/"@ + name;
    assert(s.skip(dir.len() as int + 1) == name);
    assert(name.skip(0) == name);
    lemma_last_part(dir, none);
    let a = dir + "/"@;
    assert(dir + seq!['/'] + none == a);
    assert(a.skip(a.len() as int) == none);
    assert(a.take(a.len() - 1) == dir);
    lemma_last_part(dir, here);
    let b = dir + "/."@;
    assert(dir + seq!['/'] + here == b);
    assert(b.skip(dir.len() as int + 1) == here);
    assert(b.take(dir.len() as int) == dir);
    lemma_last_part(dir, above);
    let c = dir + "/.."@;
    assert(dir + seq!['/'] + above == c);
    assert(c.skip(dir.len() as int + 1) == above);
    assert(none.skip(0) == none);
    assert(here.skip(0) == here);
    assert(above.skip(0) == above);
}

/// A command goes by the name it was given, and failing that by the name its
/// program's path ends in, or by all of it where it ends in none.
pub proof fn law_what_a_command_is_called(cmd: &Cmd)
    ensures
        cmd.name is Some ==> cmd.called() == cmd.name->0@,
        cmd.name is None && path::file_name(cmd.program@) is Some ==> cmd.called()
            == path::file_name(cmd.program@)->0,
        cmd.name is None && path::file_name(cmd.program@) is None ==> cmd.called() == cmd.program@,
{
}

/// A step holds what it was given, in the order it was given it.
pub proof fn law_a_step_holds_what_it_was_given<F>(step: &Step<F>)
    ensures
        match step.items {
            Items::Cmds { cmds, strategy, .. } => {
                &&& step.commands() == cmds@
                &&& step.bodies().len() == 0
                &&& step.size() == cmds@.len()
                &&& forall|i: int| 0 <= i < cmds@.len() ==> #[trigger] step.holds(i) == Item::<'_, F>::Cmd(
                    &cmds@[i],
                )
                &&& step.planned() == Some(strategy)
                &&& strategy matches Strategy::Batched { jobs } ==> step.breadth() == jobs
                &&& strategy is Serial ==> step.breadth() == 1
            },
            Items::Closures(closures) => {
                &&& step.commands().len() == 0
                &&& step.bodies() == closures@
                &&& step.size() == closures@.len()
                &&& forall|i: int|
                    0 <= i < closures@.len() ==> #[trigger] step.holds(i) == Item::Closure(
                        &closures@[i],
                    )
                &&& step.planned() is None
                &&& step.breadth() == 1
            },
        },
{
}

proof fn lemma_first_command(cmds: Seq<Cmd>)
    ensures
        cmds_told(cmds, step::cmds_complaint(cmds)),
    decreases cmds.len(),
{
    if cmds.len() > 0 && !cmds[0].status.is_failure() {
        let rest = cmds.skip(1);
        lemma_first_command(rest);
        if step::cmds_complaint(cmds) is Some {
            let k = choose|k: int| #[trigger] first_bad_cmd(rest, k);
            assert(rest[k] == cmds[k + 1]);
            assert(first_bad_cmd(cmds, k + 1)) by {
                assert forall|i: int| 0 <= i < k + 1 implies !(
                #[trigger] cmds[i]).status.is_failure() by {
                    if i > 0 {
                        assert(rest[i - 1] == cmds[i]);
                    }
                }
            }
        } else {
            assert forall|i: int| 0 <= i < cmds.len() implies !(
            #[trigger] cmds[i]).status.is_failure() by {
                if i > 0 {
                    assert(rest[i - 1] == cmds[i]);
                }
            }
        }
    } else if cmds.len() > 0 {
        assert(first_bad_cmd(cmds, 0));
    }
}

/// Whether the command at `k` is the first that failed.
pub open spec fn first_bad_cmd(cmds: Seq<Cmd>, k: int) -> bool {
    &&& 0 <= k < cmds.len()
    &&& cmds[k].status.is_failure()
    &&& forall|i: int| 0 <= i < k ==> !(#[trigger] cmds[i]).status.is_failure()
}

/// Whether `why` names the first of `cmds` that failed and its line, or is
/// missing because none did.
pub open spec fn cmds_told(cmds: Seq<Cmd>, why: Option<Seq<char>>) -> bool {
    match why {
        Some(why) => exists|k: int| #[trigger]
            first_bad_cmd(cmds, k) && why == cmds[k].called() + " failed: "@
                + cmds[k].shell_line(),
        None => forall|i: int|
            0 <= i < cmds.len() ==> !(#[trigger] cmds[i]).status.is_failure(),
    }
}

/// Whether the closure at `k` is the first that failed.
pub open spec fn first_bad_closure<F>(closures: Seq<Closure<F>>, k: int) -> bool {
    &&& 0 <= k < closures.len()
    &&& closures[k].status.is_failure()
    &&& forall|i: int| 0 <= i < k ==> !(#[trigger] closures[i]).status.is_failure()
}

/// Whether `why` names the first of `closures` that failed and what it said, or
/// is missing because none did.
pub open spec fn closures_told<F>(closures: Seq<Closure<F>>, why: Option<Seq<char>>) -> bool {
    match why {
        Some(why) => exists|k: int| #[trigger]
            first_bad_closure(closures, k) && why == closures[k].name@ + " failed"@ + (
            match closures[k].status {
                Status::Failed(said) => ": "@ + said@,
                _ => Seq::empty(),
            }),
        None => forall|i: int|
            0 <= i < closures.len() ==> !(#[trigger] closures[i]).status.is_failure(),
    }
}

proof fn lemma_first_closure<F>(closures: Seq<Closure<F>>)
    ensures
        closures_told(closures, step::closures_complaint(closures)),
    decreases closures.len(),
{
    if closures.len() > 0 && !closures[0].status.is_failure() {
        let rest = closures.skip(1);
        lemma_first_closure(rest);
        if step::closures_complaint(closures) is Some {
            let why = step::closures_complaint(closures)->0;
            let k = choose|k: int| #[trigger]
                first_bad_closure(rest, k) && why == rest[k].name@ + " failed"@ + (
                match rest[k].status {
                    Status::Failed(said) => ": "@ + said@,
                    _ => Seq::empty(),
                });
            assert(rest[k] == closures[k + 1]);
            assert(first_bad_closure(closures, k + 1)) by {
                assert forall|i: int| 0 <= i < k + 1 implies !(
                #[trigger] closures[i]).status.is_failure() by {
                    if i > 0 {
                        assert(rest[i - 1] == closures[i]);
                    }
                }
            }
        } else {
            assert forall|i: int| 0 <= i < closures.len() implies !(
            #[trigger] closures[i]).status.is_failure() by {
                if i > 0 {
                    assert(rest[i - 1] == closures[i]);
                }
            }
        }
    } else if closures.len() > 0 {
        reveal_strlit(" failed: ");
        reveal_strlit(" failed");
        reveal_strlit(": ");
        assert(" failed"@ + ": "@ == " failed: "@);
        let c = closures[0];
        assert(first_bad_closure(closures, 0));
        match c.status {
            Status::Failed(said) => {
                assert(c.name@ + " failed"@ + (": "@ + said@) == c.name@ + (" failed"@ + ": "@)
                    + said@);
            },
            _ => {
                assert(c.name@ + " failed"@ + Seq::<char>::empty() == c.name@ + " failed"@);
            },
        }
    }
}

/// What is told of a step is the first thing in it that failed: a command by its
/// name and the line that does the same thing, a closure by its name and what
/// it said. Nothing is told of a step in which nothing failed.
pub proof fn law_the_first_failure_is_told<F>(step: &Step<F>)
    ensures
        match step.items {
            Items::Cmds { cmds, .. } => cmds_told(cmds@, step.complaint()),
            Items::Closures(closures) => closures_told(closures@, step.complaint()),
        },
        step.on_error is Abort ==> step.ends_the_run() == step.complaint(),
        !(step.on_error is Abort) ==> step.ends_the_run() is None,
        step.stops() <==> step.complaint() is Some && !(step.on_error is Continue),
{
    match step.items {
        Items::Cmds { cmds, .. } => {
            lemma_first_command(cmds@);
        },
        Items::Closures(closures) => {
            lemma_first_closure(closures@);
        },
    }
}

} // verus!
