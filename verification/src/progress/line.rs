//! The pieces that progress lines are made of.

use vstd::prelude::*;

use crate::cpu::list;
use crate::fmt;
use crate::progress::Marks;
use crate::status::Status;
use crate::text;

verus! {

/// The length names are cut to, so a live line cannot wrap.
//
// a wrapped line takes two rows, and the erase would leave
// half of it behind
pub const NAME: usize = 32;

pub const GREEN: &'static str = "32";

pub const RED: &'static str = "31";

pub const YELLOW: &'static str = "33";

pub const CYAN: &'static str = "36";

pub const DIM: &'static str = "2";

pub const BOLD: &'static str = "1";

/// `words` in the color of `code`, when there is color.
pub open spec fn painted(color: bool, code: Seq<char>, words: Seq<char>) -> Seq<char> {
    if color {
        "\u{1b}["@ + code + "m"@ + words + "\u{1b}[0m"@
    } else {
        words
    }
}

/// `words` in the color of `code`, when there is color.
pub fn paint(color: bool, code: &str, words: &str) -> (s: String)
    ensures
        s@ == painted(color, code@, words@),
{
    if color {
        let mut s = "\u{1b}[".to_owned();
        s.append(code);
        s.append("m");
        s.append(words);
        s.append("\u{1b}[0m");
        s
    } else {
        words.to_owned()
    }
}

impl Marks {
    /// The mark for a status, and the color to paint it.
    pub open spec fn sign(self, status: Status) -> Option<(Seq<char>, Seq<char>)> {
        let (unicode, ascii, color) = match status {
            Status::NotRun | Status::Skipped => ("·"@, "-"@, DIM@),
            Status::TimedOut(_) => ("!"@, "!"@, YELLOW@),
            _ => if status.is_failure() {
                ("✗"@, "x"@, RED@)
            } else {
                ("✓"@, "+"@, GREEN@)
            },
        };
        match self {
            Marks::Off => None,
            Marks::Unicode => Some((unicode, color)),
            Marks::Ascii => Some((ascii, color)),
        }
    }

    /// The mark for a status, and the color to paint it.
    pub fn of(self, status: &Status) -> (r: Option<(&'static str, &'static str)>)
        ensures
            match r {
                Some((mark, code)) => self.sign(*status) == Some((mark@, code@)),
                None => self.sign(*status) is None,
            },
    {
        let (unicode, ascii, color) = match status {
            Status::NotRun | Status::Skipped => ("·", "-", DIM),
            Status::TimedOut(_) => ("!", "!", YELLOW),
            _ => if status.failed() {
                ("✗", "x", RED)
            } else {
                ("✓", "+", GREEN)
            },
        };
        match self {
            Marks::Off => None,
            Marks::Unicode => Some((unicode, color)),
            Marks::Ascii => Some((ascii, color)),
        }
    }

    /// The spinner in one of its frames.
    pub open spec fn turn(self, frame: nat) -> Seq<char> {
        match self {
            Marks::Unicode => seq!["⠋"@, "⠙"@, "⠹"@, "⠸"@, "⠼"@, "⠴"@, "⠦"@, "⠧"@, "⠇"@, "⠏"@][(
            frame % 10) as int],
            _ => seq!["|"@, "/"@, "-"@, "\\"@][(frame % 4) as int],
        }
    }

    /// The spinner in one of its frames.
    pub fn spinner(self, frame: usize) -> (s: &'static str)
        ensures
            s@ == self.turn(frame as nat),
    {
        match self {
            Marks::Unicode => match frame % 10 {
                0 => "⠋",
                1 => "⠙",
                2 => "⠹",
                3 => "⠸",
                4 => "⠼",
                5 => "⠴",
                6 => "⠦",
                7 => "⠧",
                8 => "⠇",
                _ => "⠏",
            },
            _ => match frame % 4 {
                0 => "|",
                1 => "/",
                2 => "-",
                _ => "\\",
            },
        }
    }

    /// A name cut to a length, with the cut marked.
    pub open spec fn shortened(self, name: Seq<char>) -> Seq<char> {
        if name.len() <= NAME {
            name
        } else {
            match self {
                Marks::Unicode => name.take(NAME - 1).push('…'),
                _ => name.take(NAME - 3) + seq!['.', '.', '.'],
            }
        }
    }

    /// A name short enough that the line it sits on cannot wrap.
    pub fn cut(self, name: &str) -> (s: String)
        ensures
            s@ == self.shortened(name@),
    {
        let v = text::chars(name);
        if v.len() <= NAME {
            return name.to_owned();
        }
        match self {
            Marks::Unicode => {
                let part = text::slice(v.as_slice(), 0, NAME - 1);
                let mut s = text::string(part.as_slice());
                s.push('…');
                assert(s@ == self.shortened(name@));
                s
            },
            _ => {
                let part = text::slice(v.as_slice(), 0, NAME - 3);
                let mut s = text::string(part.as_slice());
                s.push('.');
                s.push('.');
                s.push('.');
                assert(s@ == self.shortened(name@));
                s
            },
        }
    }
}

/// How it went in a word or two, where nothing in front of the line says it.
pub open spec fn verdict_of(marked: bool, status: Status) -> Seq<char> {
    match status {
        Status::TimedOut(_) => "timed out"@,
        Status::Finished(t) => if t.exit != 0 {
            "exit "@ + text::signed(t.exit as int)
        } else if marked {
            Seq::empty()
        } else {
            "ok"@
        },
        _ => Seq::empty(),
    }
}

fn verdict(marked: bool, status: &Status) -> (s: String)
    ensures
        s@ == verdict_of(marked, *status),
{
    match status {
        Status::TimedOut(_) => "timed out".to_owned(),
        Status::Finished(t) => if !t.ok() {
            let mut s = "exit ".to_owned();
            let code = text::write_signed(t.exit as i64);
            s.append(code.as_str());
            s
        } else if marked {
            String::new()
        } else {
            // with no mark in front, something still has to say it worked
            "ok".to_owned()
        },
        _ => String::new(),
    }
}

/// The nodes it ran on, and why no memory preference went with them. Nothing
/// for one with no nodes.
pub open spec fn placement_of(nodes: Seq<usize>, note: Option<Seq<char>>) -> Seq<char> {
    if nodes.len() == 0 {
        Seq::empty()
    } else {
        match note {
            None => "node "@ + list::list_text(nodes),
            Some(note) => "node "@ + list::list_text(nodes) + " (no memory preference: "@ + note
                + ")"@,
        }
    }
}

fn placement(nodes: &[usize], note: Option<&str>) -> (s: String)
    ensures
        s@ == placement_of(
            nodes@,
            match note {
                Some(note) => Some(note@),
                None => None,
            },
        ),
{
    // a machine with one node hands out no nodes at all, so
    // this is empty there and adds nothing to the line
    if nodes.len() == 0 {
        return String::new();
    }
    let mut s = "node ".to_owned();
    let on = list::list(nodes);
    s.append(on.as_str());
    if let Some(note) = note {
        s.append(" (no memory preference: ");
        s.append(note);
        s.append(")");
    }
    s
}

/// `words` with two spaces in front of them, or nothing for no words.
pub open spec fn aside(words: Seq<char>) -> Seq<char> {
    if words.len() == 0 {
        Seq::empty()
    } else {
        "  "@ + words
    }
}

/// What follows the name of a finished item: what it cost, where it ran and how
/// it went, or why it did not run.
pub open spec fn detail_of(
    marked: bool,
    status: Status,
    nodes: Seq<usize>,
    note: Option<Seq<char>>,
) -> Seq<char> {
    match status {
        Status::NotRun => "-"@,
        Status::Skipped => "skipped"@,
        Status::Failed(why) => why@,
        Status::TimedOut(t) | Status::Finished(t) => text::padded_left(
            fmt::seconds_text(t.wall_ns as nat),
            ' ',
            8,
        ) + "s "@ + text::padded_left(
            match t.max_rss_kb {
                Some(kib) => fmt::bytes_text(kib as int),
                None => "-"@,
            },
            ' ',
            9,
        ) + aside(placement_of(nodes, note)) + aside(verdict_of(marked, status)),
    }
}

fn detail(marked: bool, status: &Status, nodes: &[usize], note: Option<&str>) -> (s: String)
    ensures
        s@ == detail_of(
            marked,
            *status,
            nodes@,
            match note {
                Some(note) => Some(note@),
                None => None,
            },
        ),
{
    match status {
        Status::NotRun => "-".to_owned(),
        Status::Skipped => "skipped".to_owned(),
        Status::Failed(why) => why.clone(),
        Status::TimedOut(t) | Status::Finished(t) => {
            let wall = fmt::seconds(t.wall_ns);
            let mut s = text::pad_left(wall.as_str(), ' ', 8);
            s.append("s ");
            let rss = match t.max_rss_kb {
                Some(kib) => fmt::bytes(kib),
                None => "-".to_owned(),
            };
            let rss = text::pad_left(rss.as_str(), ' ', 9);
            s.append(rss.as_str());
            // the verdict stays last, where a failure is the
            // final thing on the line rather than buried
            let placed = placement(nodes, note);
            push_aside(&mut s, placed.as_str());
            let said = verdict(marked, status);
            push_aside(&mut s, said.as_str());
            s
        },
    }
}

/// Write `words` at the end of `out` with two spaces in front, if there are any.
fn push_aside(out: &mut String, words: &str)
    ensures
        final(out)@ == old(out)@ + aside(words@),
{
    if words.unicode_len() > 0 {
        out.append("  ");
        out.append(words);
    }
}

/// The line for one finished item: its mark, its name and its result.
pub open spec fn finished_line(
    marks: Marks,
    color: bool,
    name: Seq<char>,
    status: Status,
    nodes: Seq<usize>,
    note: Option<Seq<char>>,
) -> Seq<char> {
    let padded = text::padded_right(name, NAME as nat);
    let name = match status {
        Status::NotRun | Status::Skipped => painted(color, DIM@, padded),
        _ => padded,
    };
    let detail = detail_of(marks != Marks::Off, status, nodes, note);
    match marks.sign(status) {
        Some(sign) => "  "@ + painted(color, sign.1, sign.0) + " "@ + name + " "@ + detail,
        None => "  "@ + name + " "@ + detail,
    }
}

/// The line for one finished item: its mark, its name and its result.
pub fn line(
    marks: Marks,
    color: bool,
    name: &str,
    status: &Status,
    nodes: &[usize],
    note: Option<&str>,
) -> (s: String)
    ensures
        s@ == finished_line(
            marks,
            color,
            name@,
            *status,
            nodes@,
            match note {
                Some(note) => Some(note@),
                None => None,
            },
        ),
{
    let mark = marks.of(status);
    let result = detail(mark.is_some(), status, nodes, note);
    let padded = text::pad_right(name, NAME);
    let shown = match status {
        Status::NotRun | Status::Skipped => paint(color, DIM, padded.as_str()),
        _ => padded,
    };
    let mut s = "  ".to_owned();
    if let Some((mark, code)) = mark {
        let mark = paint(color, code, mark);
        s.append(mark.as_str());
        s.append(" ");
    }
    s.append(shown.as_str());
    s.append(" ");
    s.append(result.as_str());
    s
}

} // verus!
