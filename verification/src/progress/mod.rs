//! What a run is doing, as it does it.
//!
//! By default this keeps a block at the bottom of the terminal showing the step
//! that is going, what is running inside it and for how long, with the finished
//! lines scrolling above it in color. Turn the parts off and it prints a plain
//! line per result, for a log.
//!
//! Every function here gives back the text to write, and whoever calls it
//! writes it. Times are nanoseconds on the caller's clock.

pub mod events;
pub mod laws;
pub mod line;
pub mod run_laws;
pub mod state;
pub mod text_laws;

use vstd::prelude::*;

use crate::progress::state::State;

verus! {

/// Whether to do something that only a terminal can make sense of.
#[derive(Clone, Copy, Debug, PartialEq, Eq)]
pub enum When {
    /// Only when writing to a terminal.
    Auto,
    Always,
    Never,
}

impl Default for When {
    fn default() -> (r: When)
        ensures
            r == When::Auto,
    {
        When::Auto
    }
}

impl When {
    /// Whether this means yes, on a terminal or off one.
    pub open spec fn means(self, tty: bool) -> bool {
        match self {
            When::Auto => tty,
            When::Always => true,
            When::Never => false,
        }
    }

    /// Whether this means yes, on a terminal or off one.
    pub fn yes(self, tty: bool) -> (b: bool)
        ensures
            b == self.means(tty),
    {
        match self {
            When::Auto => tty,
            When::Always => true,
            When::Never => false,
        }
    }
}

/// What goes in front of a finished line to say how it went.
#[derive(Clone, Copy, Debug, PartialEq, Eq)]
pub enum Marks {
    /// `✓ ✗ ! ·`, and braille for the spinner.
    Unicode,
    /// `+ x ! -`, for a terminal that cannot show the above.
    Ascii,
    /// No mark at all. The verdict goes at the end of the line as a word.
    Off,
}

impl Default for Marks {
    fn default() -> (r: Marks)
        ensures
            r == Marks::Unicode,
    {
        Marks::Unicode
    }
}

#[derive(Clone, Copy, Debug, PartialEq, Eq)]
pub enum Stream {
    Stdout,
    Stderr,
}

impl Default for Stream {
    fn default() -> (r: Stream)
        ensures
            r == Stream::Stdout,
    {
        Stream::Stdout
    }
}

/// Whether the environment turns color off: `NO_COLOR` is set at all, or `TERM`
/// says the terminal is a dumb one.
pub fn plain(no_color: bool, term: Option<&str>) -> (b: bool)
    ensures
        b == (no_color || (term matches Some(term) && term@ == "dumb"@)),
{
    match term {
        Some(term) => no_color || term.to_owned() == "dumb".to_owned(),
        None => no_color,
    }
}

/// The settings as given.
//
// resolved to yes or no in `start`, the first point at which
// the stream is settled
#[derive(Clone, Copy, Debug)]
pub struct Asked {
    pub marks: Marks,
    pub color: When,
    pub rewrite: When,
    pub stream: Stream,
}

/// What a run is doing, told as it happens.
pub struct Progress {
    pub state: State,
    pub asked: Asked,
}

impl Default for Progress {
    fn default() -> (r: Progress)
        ensures
            r.state.is_new(),
            r.state.well_formed(),
            r.asked == (Asked {
                marks: Marks::Unicode,
                color: When::Auto,
                rewrite: When::Auto,
                stream: Stream::Stdout,
            }),
    {
        Progress::new()
    }
}

impl Progress {
    pub fn new() -> (r: Progress)
        ensures
            r.state.is_new(),
            r.state.well_formed(),
            r.asked == (Asked {
                marks: Marks::Unicode,
                color: When::Auto,
                rewrite: When::Auto,
                stream: Stream::Stdout,
            }),
    {
        Progress {
            state: State::new(),
            asked: Asked {
                marks: Marks::Unicode,
                color: When::Auto,
                rewrite: When::Auto,
                stream: Stream::Stdout,
            },
        }
    }

    pub fn marks(self, marks: Marks) -> (r: Progress)
        ensures
            r == (Progress { asked: Asked { marks, ..self.asked }, ..self }),
    {
        let mut progress = self;
        progress.asked.marks = marks;
        progress
    }

    /// When to color the output. `NO_COLOR` or `TERM=dumb` turns it off
    /// regardless.
    pub fn color(self, when: When) -> (r: Progress)
        ensures
            r == (Progress { asked: Asked { color: when, ..self.asked }, ..self }),
    {
        let mut progress = self;
        progress.asked.color = when;
        progress
    }

    /// Whether to keep rewriting a block at the bottom of the screen. Off means
    /// one line per result and no spinner, for a redirected log.
    pub fn rewrite(self, when: When) -> (r: Progress)
        ensures
            r == (Progress { asked: Asked { rewrite: when, ..self.asked }, ..self }),
    {
        let mut progress = self;
        progress.asked.rewrite = when;
        progress
    }

    pub fn stream(self, stream: Stream) -> (r: Progress)
        ensures
            r == (Progress { asked: Asked { stream, ..self.asked }, ..self }),
    {
        let mut progress = self;
        progress.asked.stream = stream;
        progress
    }
}

} // verus!
