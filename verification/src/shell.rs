//! Words the way a shell takes them.

use vstd::prelude::*;

use crate::text;

verus! {

/// Whether a shell reads `c` as nothing but itself.
pub open spec fn safe(c: char) -> bool {
    ||| 'a' <= c <= 'z'
    ||| 'A' <= c <= 'Z'
    ||| '0' <= c <= '9'
    ||| c == '_'
    ||| c == '-'
    ||| c == '.'
    ||| c == '/'
    ||| c == '='
    ||| c == ':'
    ||| c == '+'
    ||| c == ','
    ||| c == '@'
    ||| c == '%'
    ||| c == '^'
}

/// Whether a shell reads `arg` as one word and nothing but itself.
pub open spec fn plain(arg: Seq<char>) -> bool {
    arg.len() > 0 && forall|i: int| 0 <= i < arg.len() ==> safe(#[trigger] arg[i])
}

/// What stands for `c` between single quotes: a quote closes them, comes
/// escaped, and opens them again.
pub open spec fn inside_quotes(c: char) -> Seq<char> {
    if c == '\'' {
        seq!['\'', '\\', '\'', '\'']
    } else {
        seq![c]
    }
}

/// What stands for all of `arg` between single quotes.
pub open spec fn within_quotes(arg: Seq<char>) -> Seq<char>
    decreases arg.len(),
{
    if arg.len() == 0 {
        Seq::empty()
    } else {
        inside_quotes(arg[0]) + within_quotes(arg.skip(1))
    }
}

/// `arg` as one word of a shell line.
pub open spec fn quoted(arg: Seq<char>) -> Seq<char> {
    if plain(arg) {
        arg
    } else {
        seq!['\''] + within_quotes(arg) + seq!['\'']
    }
}

/// Each of `args` as one word of a shell line.
pub open spec fn all_quoted(args: Seq<Seq<char>>) -> Seq<Seq<char>> {
    args.map_values(|a: Seq<char>| quoted(a))
}

/// Whether a shell reads `c` as nothing but itself.
fn is_safe(c: char) -> (b: bool)
    ensures
        b == safe(c),
{
    ('a' <= c && c <= 'z') || ('A' <= c && c <= 'Z') || ('0' <= c && c <= '9') || c == '_' || c
        == '-' || c == '.' || c == '/' || c == '=' || c == ':' || c == '+' || c == ',' || c == '@'
        || c == '%' || c == '^'
}

/// Whether a shell reads `v` as one word and nothing but itself.
fn is_plain(v: &[char]) -> (b: bool)
    ensures
        b == plain(v@),
{
    let mut i: usize = 0;
    while i < v.len()
        invariant
            i <= v@.len(),
            forall|k: int| 0 <= k < i ==> safe(#[trigger] v@[k]),
        decreases v@.len() - i,
    {
        if !is_safe(v[i]) {
            return false;
        }
        i = i + 1;
    }
    v.len() > 0
}

/// `arg` as one word of a shell line: left alone where a shell would read it
/// the same way, and in single quotes otherwise.
pub fn quote(arg: &str) -> (s: String)
    ensures
        s@ == quoted(arg@),
{
    let v = text::chars(arg);
    if is_plain(v.as_slice()) {
        return arg.to_owned();
    }
    let mut s = String::new();
    s.push('\'');
    let mut i: usize = 0;
    assert(v@.skip(0) == v@);
    while i < v.len()
        invariant
            i <= v@.len(),
            seq!['\''] + within_quotes(v@) == s@ + within_quotes(v@.skip(i as int)),
        decreases v@.len() - i,
    {
        let ghost was = s@;
        let ghost rest = within_quotes(v@.skip(i + 1));
        assert(v@.skip(i as int).skip(1) == v@.skip(i + 1));
        if v[i] == '\'' {
            s.push('\'');
            s.push('\\');
            s.push('\'');
            s.push('\'');
        } else {
            s.push(v[i]);
        }
        assert(s@ == was + inside_quotes(v@[i as int]));
        assert(was + (inside_quotes(v@[i as int]) + rest) == s@ + rest);
        i = i + 1;
    }
    assert(s@ + within_quotes(v@.skip(i as int)) == s@);
    s.push('\'');
    s
}

/// What a shell splits a line into.
pub enum Token {
    Word(Seq<char>),
    /// Something with a meaning of its own: `(`, `)`, `&&`, or a redirect.
    Sign(Seq<char>),
}

/// Where a shell is in a line as it splits it.
pub enum Place {
    /// Between tokens.
    Gap,
    /// In a word, having read this much of it.
    Word(Seq<char>),
    /// In a word, between single quotes.
    Quotes(Seq<char>),
    /// In a word, past a backslash.
    Escape(Seq<char>),
}

/// How many characters of `s` make up the sign it starts with, or none if it
/// starts with none.
pub open spec fn sign_len(s: Seq<char>) -> nat {
    if s.len() == 0 {
        0
    } else if s[0] == '(' || s[0] == ')' {
        1
    } else if s[0] == '&' {
        if s.len() > 1 && s[1] == '&' {
            2
        } else {
            0
        }
    } else if s[0] == '>' {
        if s.len() > 1 && s[1] == '>' {
            2
        } else {
            1
        }
    } else if s[0] == '2' && s.len() > 1 && s[1] == '>' {
        if s.len() > 2 && s[2] == '>' {
            3
        } else {
            2
        }
    } else {
        0
    }
}

/// Whether `c` means something of its own to a shell when it is not quoted: it
/// ends a word, or starts an expansion, a pattern, a comment, a quote or a
/// control operator.
pub open spec fn special(c: char) -> bool {
    ||| c == ' '
    ||| c == '\t'
    ||| c == '\n'
    ||| c == '|'
    ||| c == '&'
    ||| c == ';'
    ||| c == '<'
    ||| c == '>'
    ||| c == '('
    ||| c == ')'
    ||| c == '$'
    ||| c == '`'
    ||| c == '\\'
    ||| c == '"'
    ||| c == '\''
    ||| c == '*'
    ||| c == '?'
    ||| c == '['
    ||| c == ']'
    ||| c == '#'
    ||| c == '~'
    ||| c == '!'
    ||| c == '{'
    ||| c == '}'
}

/// How a shell splits `s`, having read `tokens` and being at `at`. `None` for
/// a line it would do anything else with.
pub open spec fn read_on(s: Seq<char>, tokens: Seq<Token>, at: Place) -> Option<Seq<Token>>
    decreases s.len(),
{
    if s.len() == 0 {
        match at {
            Place::Gap => Some(tokens),
            Place::Word(w) => Some(tokens.push(Token::Word(w))),
            _ => None,
        }
    } else {
        let c = s[0];
        let rest = s.skip(1);
        match at {
            Place::Quotes(w) => if c == '\'' {
                read_on(rest, tokens, Place::Word(w))
            } else {
                read_on(rest, tokens, Place::Quotes(w.push(c)))
            },
            Place::Escape(w) => read_on(rest, tokens, Place::Word(w.push(c))),
            Place::Word(w) => if c == ' ' {
                read_on(rest, tokens.push(Token::Word(w)), Place::Gap)
            } else if c == ')' {
                read_on(
                    rest,
                    tokens.push(Token::Word(w)).push(Token::Sign(seq![c])),
                    Place::Gap,
                )
            } else if c == '\'' {
                read_on(rest, tokens, Place::Quotes(w))
            } else if c == '\\' {
                read_on(rest, tokens, Place::Escape(w))
            } else if !special(c) {
                read_on(rest, tokens, Place::Word(w.push(c)))
            } else {
                None
            },
            Place::Gap => if sign_len(s) > 0 {
                read_on(
                    s.skip(sign_len(s) as int),
                    tokens.push(Token::Sign(s.take(sign_len(s) as int))),
                    Place::Gap,
                )
            } else if c == ' ' {
                read_on(rest, tokens, Place::Gap)
            } else if c == '\'' {
                read_on(rest, tokens, Place::Quotes(Seq::empty()))
            } else if c == '\\' {
                read_on(rest, tokens, Place::Escape(Seq::empty()))
            } else if !special(c) {
                read_on(rest, tokens, Place::Word(seq![c]))
            } else {
                None
            },
        }
    }
}

/// What a shell splits `s` into.
pub open spec fn tokens_of(s: Seq<char>) -> Option<Seq<Token>> {
    read_on(s, Seq::empty(), Place::Gap)
}

/// Each of `words` as a token.
pub open spec fn as_words(words: Seq<Seq<char>>) -> Seq<Token> {
    words.map_values(|w: Seq<char>| Token::Word(w))
}

/// Whether a token that ends right in front of `rest` ends there.
pub open spec fn ends_before(rest: Seq<char>) -> bool {
    rest.len() == 0 || rest[0] == ' ' || rest[0] == ')'
}

/// Whether `piece` reads as `tokens` wherever in a line it stands, given a
/// space or a bracket after it.
pub open spec fn reads(piece: Seq<char>, tokens: Seq<Token>) -> bool {
    forall|rest: Seq<char>, front: Seq<Token>|
        ends_before(rest) ==> #[trigger] read_on(piece + rest, front, Place::Gap) == read_on(
            rest,
            front + tokens,
            Place::Gap,
        )
}

/// A piece that reads as tokens anywhere reads as them alone.
pub proof fn lemma_reads_alone(piece: Seq<char>, tokens: Seq<Token>)
    requires
        reads(piece, tokens),
    ensures
        tokens_of(piece) == Some(tokens),
{
    let none = Seq::<char>::empty();
    assert(piece + none == piece);
    assert(read_on(piece + none, Seq::empty(), Place::Gap) == read_on(
        none,
        Seq::<Token>::empty() + tokens,
        Place::Gap,
    ));
    assert(Seq::<Token>::empty() + tokens == tokens);
}

/// Two pieces with a space between them read as the tokens of both.
pub proof fn lemma_reads_both(a: Seq<char>, ta: Seq<Token>, b: Seq<char>, tb: Seq<Token>)
    requires
        reads(a, ta),
        reads(b, tb),
    ensures
        reads(a + seq![' '] + b, ta + tb),
{
    let s = a + seq![' '] + b;
    assert forall|rest: Seq<char>, front: Seq<Token>| ends_before(rest) implies #[trigger] read_on(
        s + rest,
        front,
        Place::Gap,
    ) == read_on(rest, front + (ta + tb), Place::Gap) by {
        let after = b + rest;
        let t = seq![' '] + after;
        assert(s + rest == a + t);
        assert(read_on(a + t, front, Place::Gap) == read_on(t, front + ta, Place::Gap));
        assert(t.skip(1) == after);
        assert(read_on(t, front + ta, Place::Gap) == read_on(after, front + ta, Place::Gap));
        assert(front + ta + tb == front + (ta + tb));
    }
}

/// A piece in brackets reads as its tokens between the two.
pub proof fn lemma_reads_in_brackets(a: Seq<char>, ta: Seq<Token>)
    requires
        reads(a, ta),
    ensures
        reads(
            seq!['('] + a + seq![')'],
            seq![Token::Sign(seq!['('])] + ta + seq![Token::Sign(seq![')'])],
        ),
{
    let s = seq!['('] + a + seq![')'];
    let open = Token::Sign(seq!['(']);
    let shut = Token::Sign(seq![')']);
    assert forall|rest: Seq<char>, front: Seq<Token>| ends_before(rest) implies #[trigger] read_on(
        s + rest,
        front,
        Place::Gap,
    ) == read_on(rest, front + (seq![open] + ta + seq![shut]), Place::Gap) by {
        let t = seq![')'] + rest;
        assert((s + rest).skip(1) == a + t);
        assert((s + rest).take(1) == seq!['(']);
        assert(read_on(s + rest, front, Place::Gap) == read_on(
            a + t,
            front.push(open),
            Place::Gap,
        ));
        assert(t.skip(1) == rest);
        assert(t.take(1) == seq![')']);
        assert(read_on(t, front.push(open) + ta, Place::Gap) == read_on(
            rest,
            (front.push(open) + ta).push(shut),
            Place::Gap,
        ));
        assert((front.push(open) + ta).push(shut) == front + (seq![open] + ta + seq![shut]));
    }
}

/// A sign with a space after it reads as itself.
pub proof fn lemma_reads_sign(sign: Seq<char>)
    requires
        sign == seq!['&', '&'] || sign == seq!['>'] || sign == seq!['>', '>'] || sign
            == seq!['2', '>'] || sign == seq!['2', '>', '>'],
    ensures
        reads(sign, seq![Token::Sign(sign)]),
{
    assert forall|rest: Seq<char>, front: Seq<Token>| ends_before(rest) implies #[trigger] read_on(
        sign + rest,
        front,
        Place::Gap,
    ) == read_on(rest, front + seq![Token::Sign(sign)], Place::Gap) by {
        let s = sign + rest;
        assert(sign_len(s) == sign.len());
        assert(s.take(sign.len() as int) == sign);
        assert(s.skip(sign.len() as int) == rest);
        assert(front.push(Token::Sign(sign)) == front + seq![Token::Sign(sign)]);
    }
}

proof fn lemma_plain(p: Seq<char>, rest: Seq<char>, tokens: Seq<Token>, w: Seq<char>)
    requires
        forall|i: int| 0 <= i < p.len() ==> safe(#[trigger] p[i]),
    ensures
        read_on(p + rest, tokens, Place::Word(w)) == read_on(rest, tokens, Place::Word(w + p)),
    decreases p.len(),
{
    if p.len() == 0 {
        assert(p + rest == rest);
        assert(w + p == w);
    } else {
        let s = p + rest;
        assert(safe(p[0]) && s[0] == p[0]);
        assert(s.skip(1) == p.skip(1) + rest);
        lemma_plain(p.skip(1), rest, tokens, w.push(p[0]));
        assert(w.push(p[0]) + p.skip(1) == w + p);
    }
}

proof fn lemma_quotes(p: Seq<char>, rest: Seq<char>, tokens: Seq<Token>, w: Seq<char>)
    ensures
        read_on(within_quotes(p) + rest, tokens, Place::Quotes(w)) == read_on(
            rest,
            tokens,
            Place::Quotes(w + p),
        ),
    decreases p.len(),
{
    if p.len() == 0 {
        assert(within_quotes(p) + rest == rest);
        assert(w + p == w);
    } else {
        let c = p[0];
        let t = within_quotes(p.skip(1)) + rest;
        let s = within_quotes(p) + rest;
        lemma_quotes(p.skip(1), rest, tokens, w.push(c));
        assert(w.push(c) + p.skip(1) == w + p);
        assert(s == inside_quotes(c) + t);
        if c == '\'' {
            let s1 = s.skip(1);
            let s2 = s1.skip(1);
            let s3 = s2.skip(1);
            assert(s1[0] == '\\' && s2[0] == '\'' && s3[0] == '\'');
            assert(s3.skip(1) == t);
            assert(read_on(s1, tokens, Place::Word(w)) == read_on(s2, tokens, Place::Escape(w)));
            assert(read_on(s2, tokens, Place::Escape(w)) == read_on(
                s3,
                tokens,
                Place::Word(w.push(c)),
            ));
        } else {
            assert(s.skip(1) == t);
        }
    }
}

/// Letters in front of a quoted word, all of which a shell reads as
/// themselves, read as one word with it.
pub proof fn lemma_reads_word(lead: Seq<char>, arg: Seq<char>)
    requires
        forall|i: int| 0 <= i < lead.len() ==> safe(#[trigger] lead[i]),
    ensures
        reads(lead + quoted(arg), seq![Token::Word(lead + arg)]),
{
    let s = lead + quoted(arg);
    let word = Token::Word(lead + arg);
    assert forall|rest: Seq<char>, front: Seq<Token>| ends_before(rest) implies #[trigger] read_on(
        s + rest,
        front,
        Place::Gap,
    ) == read_on(rest, front + seq![word], Place::Gap) by {
        let all = s + rest;
        if plain(arg) {
            let p = lead + arg;
            assert forall|i: int| 0 <= i < p.len() implies safe(#[trigger] p[i]) by {
                if i < lead.len() {
                    assert(p[i] == lead[i]);
                } else {
                    assert(p[i] == arg[i - lead.len()]);
                }
            }
            assert(safe(p[0]) && all[0] == p[0]);
            assert(p.len() > 1 ==> safe(p[1]) && all[1] == p[1]);
            assert(all.skip(1) == p.skip(1) + rest);
            lemma_plain(p.skip(1), rest, front, seq![p[0]]);
            assert(seq![p[0]] + p.skip(1) == p);
        } else {
            let t = seq!['\''] + rest;
            let q = within_quotes(arg) + t;
            let open = seq!['\''] + q;
            assert(all == lead + open);
            assert(open.skip(1) == q);
            assert(t.skip(1) == rest);
            lemma_quotes(arg, t, front, lead);
            if lead.len() == 0 {
                assert(all == open);
                assert(lead == Seq::<char>::empty());
            } else {
                assert(safe(lead[0]) && all[0] == lead[0]);
                assert(lead.len() > 1 ==> safe(lead[1]) && all[1] == lead[1]);
                assert(lead.len() == 1 ==> all[1] == '\'');
                assert(all.skip(1) == lead.skip(1) + open);
                lemma_plain(lead.skip(1), open, front, seq![lead[0]]);
                assert(seq![lead[0]] + lead.skip(1) == lead);
            }
            assert(read_on(q, front, Place::Quotes(lead)) == read_on(
                t,
                front,
                Place::Quotes(lead + arg),
            ));
        }
        assert(read_on(all, front, Place::Gap) == read_on(rest, front, Place::Word(lead + arg)));
        assert(front.push(word) == front + seq![word]);
        if rest.len() > 0 && rest[0] == ')' {
            assert(rest.take(1) == seq![')']);
        }
    }
}

/// Pieces that each read as their own word read as those words together.
pub proof fn lemma_reads_words(pieces: Seq<Seq<char>>, words: Seq<Seq<char>>)
    requires
        pieces.len() == words.len() > 0,
        forall|i: int|
            0 <= i < pieces.len() ==> reads(#[trigger] pieces[i], seq![Token::Word(words[i])]),
    ensures
        reads(text::joined(pieces, seq![' ']), as_words(words)),
    decreases pieces.len(),
{
    let n = pieces.len() - 1;
    assert(reads(pieces[n], seq![Token::Word(words[n])]));
    if n == 0 {
        assert(as_words(words) == seq![Token::Word(words[0])]);
    } else {
        let front = pieces.drop_last();
        assert forall|i: int| 0 <= i < front.len() implies reads(
            #[trigger] front[i],
            seq![Token::Word(words.drop_last()[i])],
        ) by {
            assert(front[i] == pieces[i]);
        }
        lemma_reads_words(front, words.drop_last());
        lemma_reads_both(
            text::joined(front, seq![' ']),
            as_words(words.drop_last()),
            pieces[n],
            seq![Token::Word(words[n])],
        );
        assert(as_words(words) == as_words(words.drop_last()) + seq![Token::Word(words[n])]);
    }
}

/// A word of nothing but letters, digits and the punctuation of flags, paths and
/// settings is left as it is, and any other is put between single quotes.
pub proof fn law_only_words_that_need_it_are_quoted(arg: Seq<char>)
    ensures
        arg.len() > 0 && (forall|i: int|
            0 <= i < arg.len() ==> 'a' <= #[trigger] arg[i] <= 'z' || 'A' <= arg[i] <= 'Z' || '0'
                <= arg[i] <= '9' || "_-./=:+,@%^"@.contains(arg[i])) <==> quoted(arg) == arg,
        quoted(arg) != arg ==> quoted(arg).len() >= arg.len() + 2 && quoted(arg)[0] == '\''
            && quoted(arg).last() == '\'',
{
    reveal_strlit("_-./=:+,@%^");
    let marks = "_-./=:+,@%^"@;
    assert forall|c: char| #[trigger] marks.contains(c) <==> c == '_' || c == '-' || c == '.' || c
        == '/' || c == '=' || c == ':' || c == '+' || c == ',' || c == '@' || c == '%' || c
        == '^' by {
        assert(marks[0] == '_' && marks[1] == '-' && marks[2] == '.' && marks[3] == '/');
        assert(marks[4] == '=' && marks[5] == ':' && marks[6] == '+' && marks[7] == ',');
        assert(marks[8] == '@' && marks[9] == '%' && marks[10] == '^');
        if marks.contains(c) {
            let i = choose|i: int| 0 <= i < marks.len() && marks[i] == c;
            assert(marks[i] == c);
        }
    }
    lemma_within_quotes(arg);
    if plain(arg) {
        assert forall|i: int| 0 <= i < arg.len() implies 'a' <= #[trigger] arg[i] <= 'z' || 'A'
            <= arg[i] <= 'Z' || '0' <= arg[i] <= '9' || marks.contains(arg[i]) by {
            assert(safe(arg[i]));
        }
    } else if arg.len() > 0 {
        let i = choose|i: int| 0 <= i < arg.len() && !safe(#[trigger] arg[i]);
        assert(!marks.contains(arg[i]));
    }
}

proof fn lemma_within_quotes(arg: Seq<char>)
    ensures
        within_quotes(arg).len() >= arg.len(),
    decreases arg.len(),
{
    if arg.len() > 0 {
        lemma_within_quotes(arg.skip(1));
    }
}

/// A quoted word reads back as the one word it was.
pub proof fn law_a_quoted_word_reads_back(arg: Seq<char>)
    ensures
        tokens_of(quoted(arg)) == Some(seq![Token::Word(arg)]),
{
    let none = Seq::<char>::empty();
    lemma_reads_word(none, arg);
    assert(none + quoted(arg) == quoted(arg));
    assert(none + arg == arg);
    lemma_reads_alone(quoted(arg), seq![Token::Word(arg)]);
}

/// Words that are quoted and joined by spaces read back as they were: none is
/// split, merged, dropped or taken to mean anything else.
pub proof fn law_quoted_words_read_back(args: Seq<Seq<char>>)
    ensures
        tokens_of(text::joined(all_quoted(args), seq![' '])) == Some(as_words(args)),
{
    let pieces = all_quoted(args);
    if args.len() == 0 {
        assert(as_words(args) == Seq::<Token>::empty());
    } else {
        let none = Seq::<char>::empty();
        assert forall|i: int| 0 <= i < pieces.len() implies reads(
            #[trigger] pieces[i],
            seq![Token::Word(args[i])],
        ) by {
            lemma_reads_word(none, args[i]);
            assert(none + quoted(args[i]) == pieces[i]);
            assert(none + args[i] == args[i]);
        }
        lemma_reads_words(pieces, args);
        lemma_reads_alone(text::joined(pieces, seq![' ']), as_words(args));
    }
}

} // verus!
