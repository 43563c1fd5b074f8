//! What can go wrong building or running a pipeline.

use vstd::prelude::*;

use crate::cpu::list_laws;
use crate::text;

verus! {

/// An error from outside the library, by its words and by the error under it.
#[derive(Debug)]
pub struct Cause {
    pub words: String,
    pub source: Option<Box<Cause>>,
}

/// Why a pipeline would not build, or why its run ended early.
#[derive(Debug)]
#[non_exhaustive]
pub enum Error {
    /// A command asks for more cores than it could ever be given.
    Cores { step: String, cmd: String, want: usize, room: usize, within: Within },
    /// A pool asks for none, or for more cores than it is carved from. `step`
    /// is `None` for the pipeline's own pool.
    Pool { step: Option<String>, size: usize, room: usize, within: Within },
    /// A file or directory could not be made or written.
    Io { path: String, source: Cause },
    /// A sink returned an error, which stops the run.
    Sink(Cause),
    /// A step failed and ended the run. `why` names what failed in it.
    Step { step: String, why: String },
}

/// What a command's cores or a pool are carved from.
#[derive(Clone, Copy, Debug, PartialEq, Eq)]
#[non_exhaustive]
pub enum Within {
    Machine,
    Pipeline,
    Step,
}

impl Within {
    /// What it reads as.
    pub open spec fn reads(self) -> Seq<char> {
        match self {
            Within::Machine => "the machine"@,
            Within::Pipeline => "the pipeline's pool"@,
            Within::Step => "its step's pool"@,
        }
    }

    /// What it reads as.
    pub fn to_string(&self) -> (s: String)
        ensures
            s@ == self.reads(),
    {
        match self {
            Within::Machine => "the machine".to_owned(),
            Within::Pipeline => "the pipeline's pool".to_owned(),
            Within::Step => "its step's pool".to_owned(),
        }
    }
}

/// An error and everything under it: `outer: inner: innermost`.
pub open spec fn told(cause: Cause) -> Seq<char>
    decreases cause,
{
    match cause.source {
        Some(under) => cause.words@ + ": "@ + told(*under),
        None => cause.words@,
    }
}

/// How many cores were asked for, and how many there are to ask for.
pub open spec fn against(want: nat, within: Within, room: nat) -> Seq<char> {
    text::decimal(want) + " cores, and "@ + within.reads() + " has "@ + text::decimal(room)
}

impl Error {
    /// What it says.
    pub open spec fn reads(&self) -> Seq<char> {
        match *self {
            Error::Cores { step, cmd, want, room, within } => step@ + "."@ + cmd@ + " wants "@
                + against(want as nat, within, room as nat),
            Error::Pool { step: Some(step), size, room, within } => step@ + " pools "@ + against(
                size as nat,
                within,
                room as nat,
            ),
            Error::Pool { step: None, size, room, within } => "the pipeline's pool wants "@
                + against(size as nat, within, room as nat),
            Error::Io { path, .. } => "cannot write "@ + path@,
            Error::Sink(cause) => cause.words@,
            Error::Step { why, .. } => why@,
        }
    }

    /// The error under it.
    pub open spec fn under(&self) -> Option<Cause> {
        match *self {
            Error::Io { source, .. } => Some(source),
            Error::Sink(cause) => match cause.source {
                Some(under) => Some(*under),
                None => None,
            },
            _ => None,
        }
    }

    /// What it and everything under it say.
    pub open spec fn in_full(&self) -> Seq<char> {
        match self.under() {
            Some(cause) => self.reads() + ": "@ + told(cause),
            None => self.reads(),
        }
    }

    /// What it says.
    pub fn to_string(&self) -> (s: String)
        ensures
            s@ == self.reads(),
    {
        match self {
            Error::Cores { step, cmd, want, room, within } => {
                let mut s = step.clone();
                s.append(".");
                s.append(cmd.as_str());
                s.append(" wants ");
                push_against(&mut s, *want, *within, *room);
                s
            },
            Error::Pool { step: Some(step), size, room, within } => {
                let mut s = step.clone();
                s.append(" pools ");
                push_against(&mut s, *size, *within, *room);
                s
            },
            Error::Pool { step: None, size, room, within } => {
                let mut s = "the pipeline's pool wants ".to_owned();
                push_against(&mut s, *size, *within, *room);
                s
            },
            Error::Io { path, .. } => {
                let mut s = "cannot write ".to_owned();
                s.append(path.as_str());
                s
            },
            // transparent: the sink's own words are the whole story
            Error::Sink(cause) => cause.words.clone(),
            Error::Step { why, .. } => why.clone(),
        }
    }

    /// The error under it, if it has one.
    pub fn source(&self) -> (r: Option<&Cause>)
        ensures
            match self.under() {
                Some(cause) => r is Some && *r->0 == cause,
                None => r is None,
            },
    {
        match self {
            Error::Io { source, .. } => Some(source),
            Error::Sink(cause) => match &cause.source {
                Some(under) => Some(&**under),
                None => None,
            },
            _ => None,
        }
    }
}

/// Write how many cores were asked for, and how many there are, at the end of
/// `out`.
fn push_against(out: &mut String, want: usize, within: Within, room: usize)
    ensures
        final(out)@ == old(out)@ + against(want as nat, within, room as nat),
{
    text::push_decimal(out, want as u128);
    out.append(" cores, and ");
    let words = within.to_string();
    out.append(words.as_str());
    out.append(" has ");
    text::push_decimal(out, room as u128);
}

/// Write an error and everything under it at the end of `out`.
fn push_told(out: &mut String, cause: &Cause)
    ensures
        final(out)@ == old(out)@ + told(*cause),
    decreases *cause,
{
    out.append(cause.words.as_str());
    if let Some(under) = &cause.source {
        out.append(": ");
        push_told(out, &**under);
    }
}

/// An error and everything under it: `outer: inner: innermost`.
pub fn chain(error: &Error) -> (s: String)
    ensures
        s@ == error.in_full(),
{
    let mut s = error.to_string();
    if let Some(cause) = error.source() {
        s.append(": ");
        push_told(&mut s, cause);
    }
    s
}

/// A sink's error is told as if it had come alone: its own words, and its own
/// error under it.
pub proof fn law_a_sink_error_is_its_own(cause: Cause)
    ensures
        Error::Sink(cause).in_full() == told(cause),
{
}

/// An error says what asked for too much, how much it asked for, and how much
/// there was and of what. One that comes from elsewhere says what that said.
pub proof fn law_an_error_says_what_went_wrong(error: Error)
    ensures
        error matches Error::Cores { step, cmd, want, room, within } ==> error.reads() == step@
            + "."@ + cmd@ + " wants "@ + text::decimal(want as nat) + " cores, and "@
            + within.reads() + " has "@ + text::decimal(room as nat),
        error matches Error::Pool { step: Some(step), size, room, within } ==> error.reads()
            == step@ + " pools "@ + text::decimal(size as nat) + " cores, and "@ + within.reads()
            + " has "@ + text::decimal(room as nat),
        error matches Error::Pool { step: None, size, room, within } ==> error.reads()
            == "the pipeline's pool wants "@ + text::decimal(size as nat) + " cores, and "@
            + within.reads() + " has "@ + text::decimal(room as nat),
        error matches Error::Io { path, .. } ==> error.reads() == "cannot write "@ + path@,
        error matches Error::Sink(cause) ==> error.reads() == cause.words@,
        error matches Error::Step { why, .. } ==> error.reads() == why@,
{
    match error {
        Error::Cores { step, cmd, want, room, within } => {
            assert(error.reads() == step@ + "."@ + cmd@ + " wants "@ + text::decimal(want as nat)
                + " cores, and "@ + within.reads() + " has "@ + text::decimal(room as nat));
        },
        Error::Pool { step: Some(step), size, room, within } => {
            assert(error.reads() == step@ + " pools "@ + text::decimal(size as nat)
                + " cores, and "@ + within.reads() + " has "@ + text::decimal(room as nat));
        },
        Error::Pool { step: None, size, room, within } => {
            assert(error.reads() == "the pipeline's pool wants "@ + text::decimal(size as nat)
                + " cores, and "@ + within.reads() + " has "@ + text::decimal(room as nat));
        },
        _ => {},
    }
}

/// What cores are carved from reads as what it is.
pub proof fn law_what_cores_are_carved_from(within: Within)
    ensures
        within is Machine ==> within.reads() == "the machine"@,
        within is Pipeline ==> within.reads() == "the pipeline's pool"@,
        within is Step ==> within.reads() == "its step's pool"@,
{
}

/// The words of an error and of each one under it, outermost first.
pub open spec fn layers(cause: Cause) -> Seq<Seq<char>>
    decreases cause,
{
    match cause.source {
        Some(under) => seq![cause.words@] + layers(*under),
        None => seq![cause.words@],
    }
}

/// Every error of a chain is told, outermost first, with a colon between each
/// two.
pub proof fn law_a_chain_tells_every_error(cause: Cause, path: String, step: String)
    ensures
        told(cause) == text::joined(layers(cause), ": "@),
        Error::Sink(cause).in_full() == told(cause),
        (Error::Io { path, source: cause }).in_full() == "cannot write "@ + path@ + ": "@ + told(
            cause,
        ),
        (Error::Step { step, why: path }).in_full() == path@,
{
    lemma_layers(cause);
}

proof fn lemma_layers(cause: Cause)
    ensures
        told(cause) == text::joined(layers(cause), ": "@),
        layers(cause).len() > 0,
    decreases cause,
{
    let all = layers(cause);
    match cause.source {
        Some(under) => {
            lemma_layers(*under);
            list_laws::lemma_joined_front(all, ": "@);
            assert(all.skip(1) == layers(*under));
        },
        None => {},
    }
}

} // verus!
