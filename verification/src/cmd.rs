//! Commands, built but not run.

use core::time::Duration;

use vstd::prelude::*;

use crate::cmd_laws;
use crate::path;
use crate::shell;
use crate::sorted;
use crate::sorted::{Fields, Names};
use crate::status::{Policy, Status};
use crate::text;
use crate::value::Value;

verus! {

/// Where one of a command's streams goes.
#[derive(Clone, Debug, PartialEq, Eq)]
pub enum Output {
    Null,
    Inherit,
    File(String),
    Append(String),
    /// A file that is kept only if the command fails.
    OnFailure(String),
}

impl Default for Output {
    fn default() -> (r: Output)
        ensures
            r == Output::Null,
    {
        Output::Null
    }
}

/// Where a command's pages come from, once its cores sit on a memory node.
#[derive(Clone, Copy, Debug, PartialEq, Eq)]
pub enum Memory {
    /// Prefer the node the cores are on, and spill onto another when it fills.
    /// `MPOL_PREFERRED`.
    Preferred,
    /// That node and no other. `MPOL_BIND`, so a command needing more than the
    /// node has left is killed rather than slowed.
    Bound,
    /// Ask for nothing, and let each page land on the node of the thread that
    /// touched it first, which is what the kernel does unasked.
    FirstTouch,
}

impl Default for Memory {
    fn default() -> (r: Memory)
        ensures
            r == Memory::Preferred,
    {
        Memory::Preferred
    }
}

/// An option: a flag on its own, or a flag with a value after it.
#[derive(Clone, Debug)]
pub struct Opt {
    pub flag: String,
    pub value: Option<String>,
}

/// One level of a command: the program itself, or a subcommand under it.
#[derive(Clone, Debug)]
pub struct Level {
    /// The subcommand word, or `None` for the program's own level.
    pub sub: Option<String>,
    pub opts: Vec<Opt>,
    pub positionals: Vec<String>,
}

/// A command, built but not run.
#[derive(Clone, Debug)]
pub struct Cmd {
    pub name: Option<String>,
    pub program: String,
    /// How many cores this asks for, if it said for itself.
    pub cores: Option<usize>,
    /// The cpus it was given, filled in when it runs and only for as long as it
    /// held them.
    pub cpus: Vec<usize>,
    /// The memory nodes those cpus sit on, and nothing on a machine with one
    /// node.
    pub nodes: Vec<usize>,
    /// Where its pages should come from, if it said for itself.
    pub memory: Option<Memory>,
    /// The memory policy it was given once placed.
    pub policy: Policy,
    /// Whether the machine has more than one memory node.
    pub numa: bool,
    /// Whether its cpus are the whole of a pool it shares, rather than cores
    /// leased to it alone.
    pub pooled: bool,
    /// The program's own level, then one per subcommand. Never empty.
    pub levels: Vec<Level>,
    pub env: Fields,
    pub dir: Option<String>,
    pub timeout: Option<Duration>,
    pub stdout: Output,
    pub stderr: Output,
    pub fields: Fields,
    pub tags: Names,
    pub status: Status,
}

/// What an optional text reads.
pub open spec fn maybe(s: Option<String>) -> Option<Seq<char>> {
    match s {
        Some(s) => Some(s@),
        None => None,
    }
}

/// A level by what its parts read.
#[verifier::ext_equal]
pub struct LevelText {
    pub sub: Option<Seq<char>>,
    pub opts: Seq<(Seq<char>, Option<Seq<char>>)>,
    pub positionals: Seq<Seq<char>>,
}

impl View for Level {
    type V = LevelText;

    open spec fn view(&self) -> LevelText {
        LevelText {
            sub: maybe(self.sub),
            opts: self.opts@.map_values(|o: Opt| (o.flag@, maybe(o.value))),
            positionals: text::texts(self.positionals@),
        }
    }
}

/// An option as words.
pub open spec fn opt_words(opt: (Seq<char>, Option<Seq<char>>)) -> Seq<Seq<char>> {
    match opt.1 {
        Some(value) => seq![opt.0, value],
        None => seq![opt.0],
    }
}

/// Options as words, in the order they were given.
pub open spec fn opts_words(opts: Seq<(Seq<char>, Option<Seq<char>>)>) -> Seq<Seq<char>>
    decreases opts.len(),
{
    if opts.len() == 0 {
        Seq::empty()
    } else {
        opts_words(opts.drop_last()) + opt_words(opts.last())
    }
}

/// A level as words: its own, then its options, then its positionals.
pub open spec fn level_words(level: LevelText) -> Seq<Seq<char>> {
    (match level.sub {
        Some(sub) => seq![sub],
        None => Seq::empty(),
    }) + opts_words(level.opts) + level.positionals
}

/// Levels as words, one level after another.
pub open spec fn levels_words(levels: Seq<LevelText>) -> Seq<Seq<char>>
    decreases levels.len(),
{
    if levels.len() == 0 {
        Seq::empty()
    } else {
        levels_words(levels.drop_last()) + level_words(levels.last())
    }
}

/// A level with an option added.
pub open spec fn with_opt(level: LevelText, flag: Seq<char>, value: Option<Seq<char>>) -> LevelText {
    LevelText { opts: level.opts.push((flag, value)), ..level }
}

/// A level with a positional added.
pub open spec fn with_path(level: LevelText, path: Seq<char>) -> LevelText {
    LevelText { positionals: level.positionals.push(path), ..level }
}

/// A level with nothing on it yet.
pub open spec fn bare(sub: Option<Seq<char>>) -> LevelText {
    LevelText { sub, opts: Seq::empty(), positionals: Seq::empty() }
}

/// A variable set for one command, as a word in front of it.
pub open spec fn setting(key: Seq<char>, value: Seq<char>) -> Seq<char> {
    key + seq!['='] + shell::quoted(value)
}

/// The variables set for a command, as words in front of it.
pub open spec fn settings(env: Seq<(Seq<char>, Seq<char>)>) -> Seq<Seq<char>> {
    env.map_values(|e: (Seq<char>, Seq<char>)| setting(e.0, e.1))
}

/// A redirect of the stream `fd` on a shell line.
pub open spec fn redirected(out: Output, fd: Seq<char>) -> Option<Seq<char>> {
    match out {
        Output::Inherit => None,
        Output::Null => Some(fd + "> "@ + "/dev/null"@),
        Output::File(p) | Output::OnFailure(p) => Some(fd + "> "@ + shell::quoted(p@)),
        Output::Append(p) => Some(fd + ">> "@ + shell::quoted(p@)),
    }
}

/// `line` with a redirect after it, if there is one.
pub open spec fn followed(line: Seq<char>, redirect: Option<Seq<char>>) -> Seq<char> {
    match redirect {
        Some(words) => line + seq![' '] + words,
        None => line,
    }
}

/// The levels by what their parts read.
pub open spec fn level_texts(levels: Seq<Level>) -> Seq<LevelText> {
    levels.map_values(|l: Level| l@)
}

impl Cmd {
    /// Whether the program's own level is there, and what is kept under names is
    /// kept in their order.
    pub open spec fn well_formed(&self) -> bool {
        &&& self.levels@.len() > 0
        &&& self.env.well_formed()
        &&& self.fields.well_formed()
        &&& self.tags.well_formed()
    }

    /// The levels by what their parts read.
    pub open spec fn shape(&self) -> Seq<LevelText> {
        level_texts(self.levels@)
    }

    /// Everything after the program.
    pub open spec fn argv(&self) -> Seq<Seq<char>> {
        levels_words(self.shape())
    }

    /// How many words of it the next option comes after.
    pub open spec fn room(&self) -> int {
        self.argv().len() - self.levels@.last().positionals@.len()
    }

    /// Its name, or failing that its program's file name.
    pub open spec fn called(&self) -> Seq<char> {
        match self.name {
            Some(name) => name@,
            None => match path::file_name(self.program@) {
                Some(file) => file,
                None => self.program@,
            },
        }
    }

    /// The command itself on a shell line, before anything around it.
    pub open spec fn bare_line(&self) -> Seq<char> {
        text::joined(
            settings(self.env@) + seq![shell::quoted(self.program@)] + shell::all_quoted(
                self.argv(),
            ),
            seq![' '],
        )
    }

    /// The command in the directory it runs in.
    pub open spec fn placed_line(&self) -> Seq<char> {
        match self.dir {
            Some(dir) => "(cd "@ + shell::quoted(dir@) + " && "@ + self.bare_line() + seq![')'],
            None => self.bare_line(),
        }
    }

    /// The command as a shell line.
    pub open spec fn shell_line(&self) -> Seq<char> {
        followed(followed(self.placed_line(), redirected(self.stdout, ""@)), redirected(self.stderr, "2"@))
    }
}

impl Level {
    fn new(sub: Option<String>) -> (r: Level)
        ensures
            r@ == bare(maybe(sub)),
    {
        let r = Level { sub, opts: Vec::new(), positionals: Vec::new() };
        assert(r@ == bare(maybe(sub)));
        r
    }
}

impl Cmd {
    pub fn new(program: impl Value) -> (r: Cmd)
        ensures
            r.well_formed(),
            r.program@ == program.text(),
            r.name is None,
            r.cores is None,
            r.cpus@.len() == 0,
            r.nodes@.len() == 0,
            r.memory is None,
            r.policy == Policy::Default,
            !r.numa,
            !r.pooled,
            r.shape() == seq![bare(None)],
            r.argv() == Seq::<Seq<char>>::empty(),
            r.env@.len() == 0,
            r.dir is None,
            r.timeout is None,
            r.stdout == Output::Null,
            r.stderr == Output::Null,
            r.fields@.len() == 0,
            r.tags@.len() == 0,
            r.status == Status::NotRun,
    {
        let mut levels: Vec<Level> = Vec::new();
        levels.push(Level::new(None));
        let r = Cmd {
            name: None,
            program: program.render(),
            cores: None,
            cpus: Vec::new(),
            nodes: Vec::new(),
            memory: None,
            policy: Policy::Default,
            numa: false,
            pooled: false,
            levels,
            env: Fields::new(),
            dir: None,
            timeout: None,
            stdout: Output::Null,
            stderr: Output::Null,
            fields: Fields::new(),
            tags: Names::new(),
            status: Status::NotRun,
        };
        assert(r.shape() == seq![bare(None)]);
        proof {
            cmd_laws::law_a_positional_comes_last(r.shape(), Seq::empty(), Seq::empty());
        }
        r
    }

    pub fn name(self, name: impl Value) -> (r: Cmd)
        ensures
            maybe(r.name) == Some(name.text()),
            r == (Cmd { name: r.name, ..self }),
    {
        let mut cmd = self;
        cmd.name = Some(name.render());
        cmd
    }

    /// Pin this command to `cores` physical cores, whichever are free.
    /// Overrides whatever its step asked for.
    pub fn cores(self, cores: usize) -> (r: Cmd)
        ensures
            r == (Cmd { cores: Some(cores), ..self }),
    {
        let mut cmd = self;
        cmd.cores = Some(cores);
        cmd
    }

    /// A subcommand, like the `search` in `mmseqs search`, which may nest.
    /// Options and paths added after it go on that subcommand.
    pub fn sub(self, sub: impl Value) -> (r: Cmd)
        ensures
            self.well_formed() ==> r.well_formed(),
            r.shape() == self.shape().push(bare(Some(sub.text()))),
            r.argv() == self.argv().push(sub.text()),
            r == (Cmd { levels: r.levels, ..self }),
    {
        let mut cmd = self;
        cmd.levels.push(Level::new(Some(sub.render())));
        proof {
            assert(cmd.shape() == self.shape().push(bare(Some(sub.text()))));
            cmd_laws::law_levels_keep_to_themselves(self.shape(), sub.text(), bare(None));
        }
        cmd
    }

    /// Where its pages should come from. The default is
    /// [`Memory::Preferred`], and a command asking for no cores is never
    /// placed, so this does nothing to it.
    pub fn memory(self, memory: Memory) -> (r: Cmd)
        ensures
            r == (Cmd { memory: Some(memory), ..self }),
    {
        let mut cmd = self;
        cmd.memory = Some(memory);
        cmd
    }

    /// An option that stands alone, like `--allow-overwrite`.
    pub fn flag(self, flag: impl Value) -> (r: Cmd)
        requires
            self.well_formed(),
        ensures
            r.well_formed(),
            r.shape() == self.shape().drop_last().push(
                with_opt(self.shape().last(), flag.text(), None),
            ),
            r.argv() == self.argv().take(self.room()) + seq![flag.text()] + self.argv().skip(
                self.room(),
            ),
            r == (Cmd { levels: r.levels, ..self }),
    {
        let mut cmd = self;
        let opt = Opt { flag: flag.render(), value: None };
        cmd.push_opt(opt);
        proof {
            assert(self.shape().last() == self.levels@.last()@);
            cmd_laws::law_a_lone_flag_is_one_word(self.shape(), flag.text());
        }
        cmd
    }

    /// An option and the value that follows it, like `-E 10`.
    pub fn arg(self, flag: impl Value, value: impl Value) -> (r: Cmd)
        requires
            self.well_formed(),
        ensures
            r.well_formed(),
            r.shape() == self.shape().drop_last().push(
                with_opt(self.shape().last(), flag.text(), Some(value.text())),
            ),
            r.argv() == self.argv().take(self.room()) + seq![flag.text(), value.text()]
                + self.argv().skip(self.room()),
            r == (Cmd { levels: r.levels, ..self }),
    {
        let mut cmd = self;
        let opt = Opt { flag: flag.render(), value: Some(value.render()) };
        cmd.push_opt(opt);
        proof {
            assert(self.shape().last() == self.levels@.last()@);
            cmd_laws::law_an_option_is_its_flag_and_its_value(
                self.shape(),
                flag.text(),
                value.text(),
            );
        }
        cmd
    }

    /// A positional. These come out in the order they were added, after
    /// everything else on their level.
    pub fn path(self, path: impl Value) -> (r: Cmd)
        requires
            self.well_formed(),
        ensures
            r.well_formed(),
            r.shape() == self.shape().drop_last().push(
                with_path(self.shape().last(), path.text()),
            ),
            r.argv() == self.argv().push(path.text()),
            r == (Cmd { levels: r.levels, ..self }),
    {
        let mut cmd = self;
        let word = path.render();
        let ghost reads = word@;
        let at: usize = cmd.levels.len() - 1;
        let level = &mut cmd.levels[at];
        let ghost was = level@;
        level.positionals.push(word);
        assert(level@ == with_path(was, reads));
        proof {
            assert(cmd.shape() == self.shape().drop_last().push(
                with_path(self.shape().last(), path.text()),
            ));
            cmd_laws::law_a_positional_comes_last(self.shape(), path.text(), Seq::empty());
        }
        cmd
    }

    /// Put an option on the level the next one goes on: the last `sub`, or the
    /// program's own if there has not been one.
    fn push_opt(&mut self, opt: Opt)
        requires
            old(self).well_formed(),
        ensures
            final(self).well_formed(),
            final(self).shape() == old(self).shape().drop_last().push(
                with_opt(old(self).shape().last(), opt.flag@, maybe(opt.value)),
            ),
            *final(self) == (Cmd { levels: final(self).levels, ..*old(self) }),
    {
        let at: usize = self.levels.len() - 1;
        let level = &mut self.levels[at];
        let ghost was = level@;
        level.opts.push(opt);
        assert(level@ == with_opt(was, opt.flag@, maybe(opt.value)));
        assert(self.shape() == old(self).shape().drop_last().push(
            with_opt(old(self).shape().last(), opt.flag@, maybe(opt.value)),
        ));
    }

    pub fn env(self, key: impl Value, value: impl Value) -> (r: Cmd)
        ensures
            r.env@ == sorted::put(self.env@, key.text(), value.text()),
            r == (Cmd { env: r.env, ..self }),
            self.well_formed() ==> r.well_formed(),
    {
        let mut cmd = self;
        cmd.env.insert(key.render(), value.render());
        cmd
    }

    pub fn dir(self, dir: impl Value) -> (r: Cmd)
        ensures
            maybe(r.dir) == Some(dir.text()),
            r == (Cmd { dir: r.dir, ..self }),
    {
        let mut cmd = self;
        cmd.dir = Some(dir.render());
        cmd
    }

    pub fn timeout(self, after: Duration) -> (r: Cmd)
        ensures
            r == (Cmd { timeout: Some(after), ..self }),
    {
        let mut cmd = self;
        cmd.timeout = Some(after);
        cmd
    }

    pub fn stdout(self, out: Output) -> (r: Cmd)
        ensures
            r == (Cmd { stdout: out, ..self }),
    {
        let mut cmd = self;
        cmd.stdout = out;
        cmd
    }

    pub fn stderr(self, out: Output) -> (r: Cmd)
        ensures
            r == (Cmd { stderr: out, ..self }),
    {
        let mut cmd = self;
        cmd.stderr = out;
        cmd
    }

    pub fn stdout_to(self, path: impl Value) -> (r: Cmd)
        ensures
            r.stdout matches Output::File(p) && p@ == path.text(),
            r == (Cmd { stdout: r.stdout, ..self }),
    {
        self.stdout(Output::File(path.render()))
    }

    pub fn stderr_to(self, path: impl Value) -> (r: Cmd)
        ensures
            r.stderr matches Output::File(p) && p@ == path.text(),
            r == (Cmd { stderr: r.stderr, ..self }),
    {
        self.stderr(Output::File(path.render()))
    }

    pub fn field(self, key: impl Value, value: impl Value) -> (r: Cmd)
        ensures
            r.fields@ == sorted::put(self.fields@, key.text(), value.text()),
            r == (Cmd { fields: r.fields, ..self }),
            self.well_formed() ==> r.well_formed(),
    {
        let mut cmd = self;
        cmd.fields.insert(key.render(), value.render());
        cmd
    }

    pub fn tag(self, tag: impl Value) -> (r: Cmd)
        ensures
            r.tags@ == sorted::named(self.tags@, tag.text()),
            r == (Cmd { tags: r.tags, ..self }),
            self.well_formed() ==> r.well_formed(),
    {
        let mut cmd = self;
        cmd.tags.insert(tag.render());
        cmd
    }

    /// The command's name, or failing that its program's file name. Not
    /// unique.
    pub fn label(&self) -> (s: String)
        ensures
            s@ == self.called(),
    {
        match &self.name {
            Some(name) => name.clone(),
            None => match path::name_of(self.program.as_str()) {
                Some(file) => file,
                None => self.program.clone(),
            },
        }
    }

    pub fn status(&self) -> (r: &Status)
        ensures
            *r == self.status,
    {
        &self.status
    }

    pub fn fields(&self) -> (r: &Fields)
        ensures
            *r == self.fields,
    {
        &self.fields
    }

    pub fn tags(&self) -> (r: &Names)
        ensures
            *r == self.tags,
    {
        &self.tags
    }

    /// The file its stderr goes to, if it goes to one.
    pub fn stderr_path(&self) -> (r: Option<&str>)
        ensures
            match self.stderr {
                Output::Null | Output::Inherit => r is None,
                Output::File(p) | Output::Append(p) | Output::OnFailure(p) => r is Some && r->0@
                    == p@,
            },
    {
        match &self.stderr {
            Output::Null | Output::Inherit => None,
            Output::File(p) | Output::Append(p) | Output::OnFailure(p) => Some(p.as_str()),
        }
    }

    /// Everything after the program, in the order it gets handed to the shell.
    pub fn args(&self) -> (out: Vec<String>)
        ensures
            text::texts(out@) == self.argv(),
    {
        let mut out: Vec<String> = Vec::new();
        let mut i: usize = 0;
        let ghost shape = self.shape();
        while i < self.levels.len()
            invariant
                i <= self.levels@.len(),
                shape == self.shape(),
                text::texts(out@) == levels_words(shape.take(i as int)),
            decreases self.levels@.len() - i,
        {
            push_level(&mut out, &self.levels[i]);
            assert(shape.take(i + 1).drop_last() == shape.take(i as int));
            i = i + 1;
        }
        assert(shape.take(i as int) == shape);
        out
    }

    /// The command as a shell line, without its pinning.
    pub fn line(&self) -> (s: String)
        ensures
            s@ == self.shell_line(),
    {
        let mut parts: Vec<String> = Vec::new();
        let mut i: usize = 0;
        let ghost env = self.env@;
        while i < self.env.len()
            invariant
                i <= env.len(),
                env == self.env@,
                text::texts(parts@) == settings(env.take(i as int)),
            decreases env.len() - i,
        {
            let mut part = self.env.key(i).to_owned();
            part.push('=');
            let value = shell::quote(self.env.value(i));
            part.append(value.as_str());
            proof {
                assert(part@ == setting(env[i as int].0, env[i as int].1));
                text::lemma_texts_push(parts@, part);
                assert(settings(env.take(i + 1)) == settings(env.take(i as int)).push(part@));
            }
            parts.push(part);
            i = i + 1;
        }
        assert(env.take(i as int) == env);
        parts.push(shell::quote(self.program.as_str()));
        let args = self.args();
        let ghost argv = self.argv();
        let ghost front = settings(env) + seq![shell::quoted(self.program@)];
        assert(text::texts(parts@) == front);
        let mut k: usize = 0;
        assert(front + shell::all_quoted(argv.take(0)) == front);
        while k < args.len()
            invariant
                k <= args@.len(),
                text::texts(args@) == argv,
                text::texts(parts@) == front + shell::all_quoted(argv.take(k as int)),
            decreases args@.len() - k,
        {
            assert(args@[k as int]@ == argv[k as int]);
            let word = shell::quote(args[k].as_str());
            proof {
                let was = shell::all_quoted(argv.take(k as int));
                text::lemma_texts_push(parts@, word);
                assert(shell::all_quoted(argv.take(k + 1)) == was.push(word@));
                assert((front + was).push(word@) == front + was.push(word@));
            }
            parts.push(word);
            k = k + 1;
        }
        assert(argv.take(k as int) == argv);
        proof {
            reveal_strlit(" ");
            assert(" "@ == seq![' ']);
        }
        let bare = text::join(&parts, " ");
        assert(bare@ == self.bare_line());

        // a subshell, so pasting the line leaves the user's
        // shell where it was. the redirects go outside it:
        // the files are opened before the child changes
        // directory, so a relative one lands in the same place
        let mut line = match &self.dir {
            Some(dir) => {
                let mut s = "(cd ".to_owned();
                let to = shell::quote(dir.as_str());
                s.append(to.as_str());
                s.append(" && ");
                s.append(bare.as_str());
                s.push(')');
                s
            },
            None => bare,
        };
        assert(line@ == self.placed_line());
        if let Some(words) = redirect(&self.stdout, "") {
            line.push(' ');
            line.append(words.as_str());
        }
        assert(line@ == followed(self.placed_line(), redirected(self.stdout, ""@)));
        if let Some(words) = redirect(&self.stderr, "2") {
            line.push(' ');
            line.append(words.as_str());
        }
        assert(line@ == self.shell_line());
        line
    }
}

/// Put a level's words at the end of `out`.
fn push_level(out: &mut Vec<String>, level: &Level)
    ensures
        text::texts(final(out)@) == text::texts(old(out)@) + level_words(level@),
{
    let ghost front = text::texts(out@);
    if let Some(sub) = &level.sub {
        out.push(sub.clone());
    }
    let ghost words = (match level@.sub {
        Some(sub) => seq![sub],
        None => Seq::empty(),
    });
    assert(text::texts(out@) == front + words);
    let ghost opts = level@.opts;
    let mut i: usize = 0;
    assert(front + words + opts_words(opts.take(0)) == front + words);
    while i < level.opts.len()
        invariant
            i <= level.opts@.len(),
            opts == level@.opts,
            text::texts(out@) == front + words + opts_words(opts.take(i as int)),
        decreases level.opts@.len() - i,
    {
        let ghost so_far = text::texts(out@);
        let opt = &level.opts[i];
        assert(opts[i as int] == (opt.flag@, maybe(opt.value)));
        out.push(opt.flag.clone());
        if let Some(value) = &opt.value {
            out.push(value.clone());
        }
        proof {
            assert(text::texts(out@) == so_far + opt_words(opts[i as int]));
            assert(opts.take(i + 1).drop_last() == opts.take(i as int));
            assert(text::texts(out@) == front + words + opts_words(opts.take(i + 1)));
        }
        i = i + 1;
    }
    assert(opts.take(i as int) == opts);
    let ghost all = level@.positionals;
    let ghost so_far = front + words + opts_words(opts);
    let mut k: usize = 0;
    assert(so_far + all.take(0) == so_far);
    while k < level.positionals.len()
        invariant
            k <= level.positionals@.len(),
            all == level@.positionals,
            text::texts(out@) == so_far + all.take(k as int),
        decreases level.positionals@.len() - k,
    {
        assert(all[k as int] == level.positionals@[k as int]@);
        let word = level.positionals[k].clone();
        proof {
            text::lemma_texts_push(out@, word);
            assert(all.take(k + 1) == all.take(k as int).push(word@));
            assert((so_far + all.take(k as int)).push(word@) == so_far + all.take(k + 1));
        }
        out.push(word);
        k = k + 1;
    }
    assert(all.take(k as int) == all);
    assert(so_far + all == front + level_words(level@));
}

/// A redirect of the stream `fd` on a shell line, if there is one.
pub fn redirect(out: &Output, fd: &str) -> (r: Option<String>)
    ensures
        match redirected(*out, fd@) {
            Some(words) => r is Some && r->0@ == words,
            None => r is None,
        },
{
    let mut s = fd.to_owned();
    match out {
        Output::Inherit => {
            return None;
        },
        Output::Null => {
            s.append("> ");
            s.append("/dev/null");
        },
        // the file is written either way, and may be deleted
        // after the run
        Output::File(p) | Output::OnFailure(p) => {
            s.append("> ");
            let to = shell::quote(p.as_str());
            s.append(to.as_str());
        },
        Output::Append(p) => {
            s.append(">> ");
            let to = shell::quote(p.as_str());
            s.append(to.as_str());
        },
    }
    Some(s)
}

} // verus!
