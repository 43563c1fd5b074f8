//! What holds of every command.

use vstd::prelude::*;

use crate::cmd;
use crate::cmd::{Cmd, LevelText, Output};
use crate::shell;
use crate::shell::Token;
use crate::text;

verus! {

/// A level's positionals come last however they were added: an option and a
/// positional can be given in either order.
pub proof fn law_positionals_come_last(
    level: LevelText,
    path: Seq<char>,
    flag: Seq<char>,
    value: Option<Seq<char>>,
)
    ensures
        cmd::level_words(cmd::with_opt(cmd::with_path(level, path), flag, value))
            == cmd::level_words(cmd::with_path(cmd::with_opt(level, flag, value), path)),
        cmd::level_words(cmd::with_path(level, path)) == cmd::level_words(level).push(path),
        cmd::level_words(cmd::with_opt(level, flag, value)) == cmd::level_words(
            LevelText { positionals: Seq::empty(), ..level },
        ) + cmd::opt_words((flag, value)) + level.positionals,
{
    assert(level.opts.push((flag, value)).drop_last() == level.opts);
    assert(cmd::with_opt(cmd::with_path(level, path), flag, value) == cmd::with_path(
        cmd::with_opt(level, flag, value),
        path,
    ));
}

/// What the words of `levels` are once the last of them has been changed to
/// `last`.
spec fn words_with(levels: Seq<LevelText>, last: LevelText) -> Seq<Seq<char>> {
    cmd::levels_words(levels.drop_last().push(last))
}

proof fn lemma_with_opt(
    levels: Seq<LevelText>,
    flag: Seq<char>,
    value: Option<Seq<char>>,
    said: Seq<Seq<char>>,
)
    requires
        levels.len() > 0,
        said == match value {
            Some(value) => seq![flag, value],
            None => seq![flag],
        },
    ensures
        ({
            let words = cmd::levels_words(levels);
            let n = words.len() - levels.last().positionals.len();
            &&& n >= 0
            &&& words.skip(n) == levels.last().positionals
            &&& words_with(levels, cmd::with_opt(levels.last(), flag, value)) == words.take(n)
                + said + words.skip(n)
        }),
{
    let front = levels.drop_last();
    let last = levels.last();
    let next = cmd::with_opt(last, flag, value);
    let words = cmd::levels_words(levels);
    let n = words.len() - last.positionals.len();
    assert(front.push(next).drop_last() == front);
    assert(next.opts.drop_last() == last.opts);
    let own: Seq<Seq<char>> = match last.sub {
        Some(sub) => seq![sub],
        None => Seq::empty(),
    };
    let head = cmd::levels_words(front) + own + cmd::opts_words(last.opts);
    assert(words == head + last.positionals);
    assert(words.take(n) == head);
    assert(words.skip(n) == last.positionals);
    assert(words_with(levels, next) == head + said + last.positionals);
}

/// An option with a value is exactly two words, the flag and then the value
/// right behind it. They come after everything the command had but the
/// positionals of the level they went on, which come after them as they were.
pub proof fn law_an_option_is_its_flag_and_its_value(
    levels: Seq<LevelText>,
    flag: Seq<char>,
    value: Seq<char>,
)
    requires
        levels.len() > 0,
    ensures
        ({
            let words = cmd::levels_words(levels);
            let n = words.len() - levels.last().positionals.len();
            let after = levels.drop_last().push(cmd::with_opt(levels.last(), flag, Some(value)));
            &&& n >= 0
            &&& words.skip(n) == levels.last().positionals
            &&& cmd::levels_words(after) == words.take(n) + seq![flag, value] + words.skip(n)
        }),
{
    lemma_with_opt(levels, flag, Some(value), seq![flag, value]);
}

/// A flag on its own is exactly one word, where an option with a value would
/// be two.
pub proof fn law_a_lone_flag_is_one_word(levels: Seq<LevelText>, flag: Seq<char>)
    requires
        levels.len() > 0,
    ensures
        ({
            let words = cmd::levels_words(levels);
            let n = words.len() - levels.last().positionals.len();
            let after = levels.drop_last().push(cmd::with_opt(levels.last(), flag, None));
            &&& n >= 0
            &&& words.skip(n) == levels.last().positionals
            &&& cmd::levels_words(after) == words.take(n) + seq![flag] + words.skip(n)
        }),
{
    lemma_with_opt(levels, flag, None, seq![flag]);
}

/// A positional is the last word of a command until something else is given, a
/// subcommand is too, and a command given nothing has no words.
pub proof fn law_a_positional_comes_last(levels: Seq<LevelText>, path: Seq<char>, sub: Seq<char>)
    requires
        levels.len() > 0,
    ensures
        cmd::levels_words(levels.drop_last().push(cmd::with_path(levels.last(), path)))
            == cmd::levels_words(levels).push(path),
        cmd::levels_words(levels.push(cmd::bare(Some(sub)))) == cmd::levels_words(levels).push(
            sub,
        ),
        cmd::levels_words(seq![cmd::bare(None)]) == Seq::<Seq<char>>::empty(),
{
    let front = levels.drop_last();
    let last = levels.last();
    let next = cmd::with_path(last, path);
    assert(front.push(next).drop_last() == front);
    assert(cmd::level_words(next) == cmd::level_words(last).push(path));
    assert(cmd::levels_words(front) + cmd::level_words(last).push(path) == (cmd::levels_words(front)
        + cmd::level_words(last)).push(path));
    law_levels_keep_to_themselves(levels, sub, last);
    let none = seq![cmd::bare(None)];
    assert(none.drop_last() == Seq::<LevelText>::empty());
    assert(cmd::levels_words(none.drop_last()) == Seq::<Seq<char>>::empty());
    assert(cmd::level_words(none.last()) == Seq::<Seq<char>>::empty());
}

/// A subcommand comes out after everything given before it, and what is given
/// after it leaves all of that as it was.
pub proof fn law_levels_keep_to_themselves(
    levels: Seq<LevelText>,
    sub: Seq<char>,
    last: LevelText,
)
    ensures
        cmd::levels_words(levels.push(cmd::bare(Some(sub)))) == cmd::levels_words(levels).push(
            sub,
        ),
        cmd::levels_words(levels.push(last)) == cmd::levels_words(levels) + cmd::level_words(last),
{
    let bare = cmd::bare(Some(sub));
    assert(levels.push(bare).drop_last() == levels);
    assert(levels.push(last).drop_last() == levels);
    assert(cmd::level_words(bare) == seq![sub]);
}

/// What a redirect reads as.
pub open spec fn redirect_tokens(out: Output, fd: Seq<char>) -> Seq<Token> {
    match out {
        Output::Inherit => Seq::empty(),
        Output::Null => seq![Token::Sign(fd + seq!['>']), Token::Word("/dev/null"@)],
        Output::File(p) | Output::OnFailure(p) => seq![
            Token::Sign(fd + seq!['>']),
            Token::Word(p@),
        ],
        Output::Append(p) => seq![Token::Sign(fd + seq!['>', '>']), Token::Word(p@)],
    }
}

/// The words of a command: what it sets, its program, and everything after it.
pub open spec fn command_words(cmd: &Cmd) -> Seq<Seq<char>> {
    cmd.env@.map_values(|e: (Seq<char>, Seq<char>)| e.0 + seq!['='] + e.1) + seq![cmd.program@]
        + cmd.argv()
}

/// What a command's line reads as: the command, in brackets after a change of
/// directory if it has one, and then a redirect for each stream that goes
/// anywhere.
pub open spec fn line_tokens(cmd: &Cmd) -> Seq<Token> {
    let words = shell::as_words(command_words(cmd));
    (match cmd.dir {
        Some(dir) => seq![
            Token::Sign(seq!['(']),
            Token::Word("cd"@),
            Token::Word(dir@),
            Token::Sign(seq!['&', '&']),
        ] + words + seq![Token::Sign(seq![')'])],
        None => words,
    }) + redirect_tokens(cmd.stdout, Seq::empty()) + redirect_tokens(cmd.stderr, seq!['2'])
}

proof fn lemma_word(word: Seq<char>)
    ensures
        shell::reads(shell::quoted(word), seq![Token::Word(word)]),
{
    let none = Seq::<char>::empty();
    shell::lemma_reads_word(none, word);
    assert(none + shell::quoted(word) == shell::quoted(word));
    assert(none + word == word);
}

proof fn lemma_command(cmd: &Cmd)
    requires
        forall|i: int, k: int|
            0 <= i < cmd.env@.len() && 0 <= k < cmd.env@[i].0.len() ==> shell::safe(
                #[trigger] cmd.env@[i].0[k],
            ),
    ensures
        shell::reads(cmd.bare_line(), shell::as_words(command_words(cmd))),
{
    let n = cmd.env@.len() as int;
    let pieces = cmd::settings(cmd.env@) + seq![shell::quoted(cmd.program@)] + shell::all_quoted(
        cmd.argv(),
    );
    let words = command_words(cmd);
    assert(pieces.len() == words.len());
    assert forall|i: int| 0 <= i < pieces.len() implies shell::reads(
        #[trigger] pieces[i],
        seq![Token::Word(words[i])],
    ) by {
        if i < n {
            let key = cmd.env@[i].0;
            let value = cmd.env@[i].1;
            let lead = key + seq!['='];
            assert forall|k: int| 0 <= k < lead.len() implies shell::safe(#[trigger] lead[k]) by {
                if k < key.len() {
                    assert(lead[k] == cmd.env@[i].0[k]);
                }
            }
            shell::lemma_reads_word(lead, value);
            assert(pieces[i] == lead + shell::quoted(value));
            assert(words[i] == lead + value);
        } else if i == n {
            lemma_word(cmd.program@);
        } else {
            lemma_word(cmd.argv()[i - n - 1]);
            assert(pieces[i] == shell::quoted(cmd.argv()[i - n - 1]));
            assert(words[i] == cmd.argv()[i - n - 1]);
        }
    }
    shell::lemma_reads_words(pieces, words);
}

proof fn lemma_redirect(
    line: Seq<char>,
    tokens: Seq<Token>,
    out: Output,
    fd: Seq<char>,
)
    requires
        shell::reads(line, tokens),
        fd == Seq::<char>::empty() || fd == seq!['2'],
    ensures
        shell::reads(
            cmd::followed(line, cmd::redirected(out, fd)),
            tokens + redirect_tokens(out, fd),
        ),
{
    reveal_strlit("> ");
    reveal_strlit(">> ");
    reveal_strlit("/dev/null");
    if out is Inherit {
        assert(tokens + redirect_tokens(out, fd) == tokens);
    } else {
        let sign = if out is Append {
            fd + seq!['>', '>']
        } else {
            fd + seq!['>']
        };
        let file = match out {
            Output::Null => "/dev/null"@,
            Output::File(p) | Output::OnFailure(p) | Output::Append(p) => p@,
            Output::Inherit => Seq::empty(),
        };
        if fd == Seq::<char>::empty() {
            assert(fd + seq!['>', '>'] == seq!['>', '>']);
            assert(fd + seq!['>'] == seq!['>']);
        } else {
            assert(fd + seq!['>', '>'] == seq!['2', '>', '>']);
            assert(fd + seq!['>'] == seq!['2', '>']);
        }
        shell::lemma_reads_sign(sign);
        lemma_word(file);
        if out is Null {
            assert(shell::plain(file));
        }
        let both = seq![Token::Sign(sign)] + seq![Token::Word(file)];
        shell::lemma_reads_both(
            sign,
            seq![Token::Sign(sign)],
            shell::quoted(file),
            seq![Token::Word(file)],
        );
        let words = sign + seq![' '] + shell::quoted(file);
        assert(cmd::redirected(out, fd) == Some(words));
        shell::lemma_reads_both(line, tokens, words, both);
        assert(both == redirect_tokens(out, fd));
    }
}

/// A redirect says where a stream goes: nothing is said for one that is left
/// alone, and one that is thrown away goes to the null device. One that is kept
/// goes to its file, after what is there already only where it was asked to.
pub proof fn law_a_stream_goes_where_it_was_sent(out: Output, fd: Seq<char>)
    ensures
        out is Inherit <==> cmd::redirected(out, fd) is None,
        out is Null ==> cmd::redirected(out, fd) == Some(fd + "> /dev/null"@),
        out matches Output::File(p) ==> cmd::redirected(out, fd) == Some(
            fd + "> "@ + shell::quoted(p@),
        ),
        out matches Output::OnFailure(p) ==> cmd::redirected(out, fd) == Some(
            fd + "> "@ + shell::quoted(p@),
        ),
        out matches Output::Append(p) ==> cmd::redirected(out, fd) == Some(
            fd + ">> "@ + shell::quoted(p@),
        ),
{
    reveal_strlit("> ");
    reveal_strlit("/dev/null");
    reveal_strlit("> /dev/null");
    assert("> "@ + "/dev/null"@ == "> /dev/null"@);
    assert(fd + "> "@ + "/dev/null"@ == fd + ("> "@ + "/dev/null"@));
}

/// A command's line is what it sets, its program and its words, each quoted
/// where it has to be and with a space between each two. It is in brackets
/// after a change of directory if it has one, and its redirects come last,
/// outside them.
pub proof fn law_what_a_line_is_made_of(cmd: &Cmd)
    ensures
        ({
            let sets = cmd.env@.map_values(
                |e: (Seq<char>, Seq<char>)| e.0 + "="@ + shell::quoted(e.1),
            );
            let bare = text::joined(
                sets + seq![shell::quoted(cmd.program@)] + cmd.argv().map_values(
                    |word: Seq<char>| shell::quoted(word),
                ),
                " "@,
            );
            let placed = match cmd.dir {
                Some(dir) => "(cd "@ + shell::quoted(dir@) + " && "@ + bare + ")"@,
                None => bare,
            };
            let out = match cmd::redirected(cmd.stdout, ""@) {
                Some(words) => " "@ + words,
                None => Seq::empty(),
            };
            let err = match cmd::redirected(cmd.stderr, "2"@) {
                Some(words) => " "@ + words,
                None => Seq::empty(),
            };
            cmd.shell_line() == placed + out + err
        }),
{
    reveal_strlit("=");
    reveal_strlit(" ");
    reveal_strlit(")");
    assert("="@ == seq!['='] && " "@ == seq![' '] && ")"@ == seq![')']);
    let sets = cmd.env@.map_values(|e: (Seq<char>, Seq<char>)| e.0 + "="@ + shell::quoted(e.1));
    assert(sets == cmd::settings(cmd.env@));
    assert(cmd.argv().map_values(|word: Seq<char>| shell::quoted(word)) == shell::all_quoted(
        cmd.argv(),
    ));
    let placed = cmd.placed_line();
    let a = cmd::redirected(cmd.stdout, ""@);
    let b = cmd::redirected(cmd.stderr, "2"@);
    let one = cmd::followed(placed, a);
    let out = match a {
        Some(words) => " "@ + words,
        None => Seq::empty(),
    };
    let err = match b {
        Some(words) => " "@ + words,
        None => Seq::empty(),
    };
    assert(one == placed + out);
    assert(cmd::followed(one, b) == one + err);
}

/// A command's line reads back in a shell as the command: every word is the
/// one it was, nothing in any of them means anything, and each stream goes
/// where it was sent. The names of the variables it sets are taken to be ones a
/// shell reads as themselves.
pub proof fn law_a_line_reads_back(cmd: &Cmd)
    requires
        forall|i: int, k: int|
            0 <= i < cmd.env@.len() && 0 <= k < cmd.env@[i].0.len() ==> shell::safe(
                #[trigger] cmd.env@[i].0[k],
            ),
    ensures
        shell::tokens_of(cmd.shell_line()) == Some(line_tokens(cmd)),
{
    let words = shell::as_words(command_words(cmd));
    lemma_command(cmd);
    let placed = match cmd.dir {
        Some(dir) => seq![
            Token::Sign(seq!['(']),
            Token::Word("cd"@),
            Token::Word(dir@),
            Token::Sign(seq!['&', '&']),
        ] + words + seq![Token::Sign(seq![')'])],
        None => words,
    };
    if let Some(dir) = cmd.dir {
        reveal_strlit("(cd ");
        reveal_strlit(" && ");
        reveal_strlit("cd");
        let cd = "cd"@;
        let sign = seq!['&', '&'];
        let to = shell::quoted(dir@);
        lemma_word(cd);
        assert(shell::plain(cd));
        lemma_word(dir@);
        shell::lemma_reads_sign(sign);
        shell::lemma_reads_both(cd, seq![Token::Word(cd)], to, seq![Token::Word(dir@)]);
        let a = cd + seq![' '] + to;
        let ta = seq![Token::Word(cd)] + seq![Token::Word(dir@)];
        shell::lemma_reads_both(a, ta, sign, seq![Token::Sign(sign)]);
        let b = a + seq![' '] + sign;
        let tb = ta + seq![Token::Sign(sign)];
        shell::lemma_reads_both(b, tb, cmd.bare_line(), words);
        let c = b + seq![' '] + cmd.bare_line();
        let tc = tb + words;
        shell::lemma_reads_in_brackets(c, tc);
        assert(seq!['('] + c + seq![')'] == cmd.placed_line());
        assert(seq![Token::Sign(seq!['('])] + tc + seq![Token::Sign(seq![')'])] == placed);
    }
    assert(shell::reads(cmd.placed_line(), placed));
    reveal_strlit("");
    reveal_strlit("2");
    assert(""@ == Seq::<char>::empty());
    assert("2"@ == seq!['2']);
    lemma_redirect(cmd.placed_line(), placed, cmd.stdout, ""@);
    let line = cmd::followed(cmd.placed_line(), cmd::redirected(cmd.stdout, ""@));
    let tokens = placed + redirect_tokens(cmd.stdout, ""@);
    lemma_redirect(line, tokens, cmd.stderr, "2"@);
    shell::lemma_reads_alone(cmd.shell_line(), line_tokens(cmd));
}

} // verus!
