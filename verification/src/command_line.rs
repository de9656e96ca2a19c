//! Splitting a Windows `UninstallString` into the program to run and its arguments.
use vstd::prelude::*;
use crate::text::{
    chars_of, is_white_space, is_whitespace, push_char, string_of, trim_chars, trim_end_by,
    trim_start_by, trim_ws,
};

verus! {

/// The tokenizer's state after reading part of a command line.
pub struct TokenState {
    /// Tokens completed so far.
    pub tokens: Seq<Seq<char>>,
    /// The token being read.
    pub current: Seq<char>,
    /// Whether an opening `"` has not been closed yet.
    pub in_quotes: bool,
}

/// The state before the first character.
pub open spec fn token_start() -> TokenState {
    TokenState { tokens: Seq::empty(), current: Seq::empty(), in_quotes: false }
}

/// Reading one character: `"` toggles quoting and is dropped, whitespace outside
/// quotes ends the current token (if any), every other character joins it.
pub open spec fn token_step(st: TokenState, c: char) -> TokenState {
    if c == '"' {
        TokenState { tokens: st.tokens, current: st.current, in_quotes: !st.in_quotes }
    } else if is_white_space(c) && !st.in_quotes {
        if st.current.len() > 0 {
            TokenState { tokens: st.tokens.push(st.current), current: Seq::empty(), in_quotes: false }
        } else {
            st
        }
    } else {
        TokenState { tokens: st.tokens, current: st.current.push(c), in_quotes: st.in_quotes }
    }
}

/// Reading all of `s`, from the left, starting in state `st`.
pub open spec fn token_run(st: TokenState, s: Seq<char>) -> TokenState
    decreases s.len(),
{
    if s.len() == 0 {
        st
    } else {
        token_run(token_step(st, s[0]), s.drop_first())
    }
}

/// The tokens of a whole command line: the completed ones, then the last one if it is not empty.
pub open spec fn command_tokens(s: Seq<char>) -> Seq<Seq<char>> {
    let st = token_run(token_start(), s);
    if st.current.len() > 0 {
        st.tokens.push(st.current)
    } else {
        st.tokens
    }
}

/// The program of a command line: its first token, or empty when there is none.
pub open spec fn command_program(s: Seq<char>) -> Seq<char> {
    let t = command_tokens(s);
    if t.len() > 0 {
        t[0]
    } else {
        Seq::empty()
    }
}

/// The arguments of a command line: every token after the first.
pub open spec fn command_args(s: Seq<char>) -> Seq<Seq<char>> {
    let t = command_tokens(s);
    if t.len() > 0 {
        t.drop_first()
    } else {
        Seq::empty()
    }
}

/// Splits a Windows command line into the program and its arguments.
///
/// A `"` starts or ends a quoted stretch, in which whitespace does not separate
/// tokens; the quotes themselves are dropped. Examples:
/// `"C:\Program Files\App\unins000.exe" /SILENT` and `MsiExec.exe /X{GUID}`.
pub fn parse_command_line(input: &str) -> (r: (String, Vec<String>))
    ensures
        r.0@ == command_program(input@),
        r.1.deep_view() == command_args(input@),
{
    let s = chars_of(input);
    let mut tokens: Vec<String> = Vec::new();
    let mut current = String::new();
    let mut in_quotes = false;
    let n: usize = s.len();
    let mut i: usize = 0;
    assert(s@.skip(0) =~= s@);
    assert(tokens.deep_view() =~= Seq::<Seq<char>>::empty());
    while i < n
        invariant
            n == s@.len(),
            s@ == input@,
            i <= n,
            token_run(token_start(), s@) == token_run(
                TokenState { tokens: tokens.deep_view(), current: current@, in_quotes },
                s@.skip(i as int),
            ),
        decreases n - i,
    {
        let ghost st = TokenState { tokens: tokens.deep_view(), current: current@, in_quotes };
        let c = s[i];
        assert(s@.skip(i as int)[0] == c);
        assert(s@.skip(i as int).drop_first() =~= s@.skip(i + 1));
        if c == '"' {
            in_quotes = !in_quotes;
        } else if is_whitespace(c) && !in_quotes {
            if current.unicode_len() > 0 {
                tokens.push(current);
                current = String::new();
            }
        } else {
            push_char(&mut current, c);
        }
        assert(tokens.deep_view() =~= token_step(st, c).tokens);
        i = i + 1;
    }
    assert(s@.skip(n as int) =~= Seq::<char>::empty());
    if current.unicode_len() > 0 {
        tokens.push(current);
    }
    assert(tokens.deep_view() =~= command_tokens(input@));
    if tokens.len() == 0 {
        (String::new(), tokens)
    } else {
        let program = tokens.remove(0);
        assert(tokens.deep_view() =~= command_args(input@));
        (program, tokens)
    }
}

/// The message given back when an application has no uninstall command.
pub open spec fn missing_uninstall_message() -> Seq<char> {
    "언인스톨 정보가 없습니다."@
}

/// What runs an application's uninstaller: its `UninstallString`, trimmed, split
/// into program and arguments; an error when nothing but whitespace is left.
pub fn uninstall_command(uninstall_string: &str) -> (r: Result<(String, Vec<String>), String>)
    ensures
        r is Err <==> trim_ws(uninstall_string@).len() == 0,
        r matches Err(e) ==> e@ == missing_uninstall_message(),
        r matches Ok(c) ==> c.0@ == command_program(trim_ws(uninstall_string@)) && c.1.deep_view()
            == command_args(trim_ws(uninstall_string@)),
{
    let chars = chars_of(uninstall_string);
    let trimmed_chars = trim_chars(&chars);
    if trimmed_chars.len() == 0 {
        return Err(String::from_str("언인스톨 정보가 없습니다."));
    }
    let trimmed = string_of(&trimmed_chars);
    Ok(parse_command_line(trimmed.as_str()))
}

// ---------------------------------------------------------------------------
// Laws of the tokenizer.

/// Reading `s + t` is reading `s`, then `t`.
pub proof fn lemma_token_run_concat(st: TokenState, s: Seq<char>, t: Seq<char>)
    ensures
        token_run(st, s + t) == token_run(token_run(st, s), t),
    decreases s.len(),
{
    if s.len() == 0 {
        assert(s + t =~= t);
    } else {
        assert((s + t)[0] == s[0]);
        assert((s + t).drop_first() =~= s.drop_first() + t);
        lemma_token_run_concat(token_step(st, s[0]), s.drop_first(), t);
    }
}

/// The state a tokenizer keeps when no token is empty and none holds a quote.
pub open spec fn clean_state(st: TokenState) -> bool {
    &&& forall|k: int| 0 <= k < st.tokens.len() ==> (#[trigger] st.tokens[k]).len() > 0
    &&& forall|k: int, j: int|
        0 <= k < st.tokens.len() && 0 <= j < st.tokens[k].len() ==> #[trigger] st.tokens[k][j]
            != '"'
    &&& forall|j: int| 0 <= j < st.current.len() ==> #[trigger] st.current[j] != '"'
}

/// Reading characters keeps a clean state clean.
pub proof fn lemma_token_run_clean(st: TokenState, s: Seq<char>)
    requires
        clean_state(st),
    ensures
        clean_state(token_run(st, s)),
    decreases s.len(),
{
    if s.len() > 0 {
        let next = token_step(st, s[0]);
        assert(clean_state(next)) by {
            if s[0] != '"' && !(is_white_space(s[0]) && !st.in_quotes) {
                assert forall|j: int| 0 <= j < next.current.len() implies #[trigger] next.current[j]
                    != '"' by {
                    if j < st.current.len() {
                        assert(next.current[j] == st.current[j]);
                    }
                }
            } else if s[0] != '"' && st.current.len() > 0 {
                assert forall|k: int| 0 <= k < next.tokens.len() implies (
                #[trigger] next.tokens[k]).len() > 0 by {
                    if k < st.tokens.len() {
                        assert(next.tokens[k] == st.tokens[k]);
                    }
                }
                assert forall|k: int, j: int|
                    0 <= k < next.tokens.len() && 0 <= j < next.tokens[k].len() implies
                    #[trigger] next.tokens[k][j] != '"' by {
                    if k < st.tokens.len() {
                        assert(next.tokens[k] == st.tokens[k]);
                    } else {
                        assert(next.tokens[k] == st.current);
                    }
                }
            }
        }
        lemma_token_run_clean(next, s.drop_first());
    }
}

/// No token of a command line is empty, and no token holds a `"`.
pub proof fn lemma_tokens_nonempty_unquoted(s: Seq<char>)
    ensures
        forall|k: int|
            0 <= k < command_tokens(s).len() ==> (#[trigger] command_tokens(s)[k]).len() > 0,
        forall|k: int, j: int|
            0 <= k < command_tokens(s).len() && 0 <= j < command_tokens(s)[k].len()
                ==> #[trigger] command_tokens(s)[k][j] != '"',
{
    lemma_token_run_clean(token_start(), s);
    let st = token_run(token_start(), s);
    let t = command_tokens(s);
    if st.current.len() > 0 {
        assert forall|k: int| 0 <= k < t.len() implies (#[trigger] t[k]).len() > 0 by {
            if k < st.tokens.len() {
                assert(t[k] == st.tokens[k]);
            }
        }
        assert forall|k: int, j: int| 0 <= k < t.len() && 0 <= j < t[k].len() implies #[trigger] t[k][j]
            != '"' by {
            if k < st.tokens.len() {
                assert(t[k] == st.tokens[k]);
            } else {
                assert(t[k] == st.current);
            }
        }
    }
}

/// `s` holds no `"`.
pub open spec fn quote_free(s: Seq<char>) -> bool {
    forall|j: int| 0 <= j < s.len() ==> #[trigger] s[j] != '"'
}

/// `s` holds neither a `"` nor a whitespace character.
pub open spec fn plain_word(s: Seq<char>) -> bool {
    forall|j: int| 0 <= j < s.len() ==> #[trigger] s[j] != '"' && !is_white_space(s[j])
}

/// Inside quotes, characters other than `"` are appended to the current token.
proof fn lemma_run_quoted(st: TokenState, t: Seq<char>)
    requires
        st.in_quotes,
        quote_free(t),
    ensures
        token_run(st, t) == (TokenState { tokens: st.tokens, current: st.current + t, in_quotes: true }),
    decreases t.len(),
{
    if t.len() == 0 {
        assert(st.current + t =~= st.current);
    } else {
        let next = token_step(st, t[0]);
        assert(next.current == st.current.push(t[0]));
        assert(quote_free(t.drop_first()));
        lemma_run_quoted(next, t.drop_first());
        assert(st.current.push(t[0]) + t.drop_first() =~= st.current + t);
    }
}

/// Outside quotes, a word without quotes or whitespace is appended to the current token.
proof fn lemma_run_word(st: TokenState, t: Seq<char>)
    requires
        !st.in_quotes,
        plain_word(t),
    ensures
        token_run(st, t) == (TokenState { tokens: st.tokens, current: st.current + t, in_quotes: false }),
    decreases t.len(),
{
    if t.len() == 0 {
        assert(st.current + t =~= st.current);
    } else {
        let next = token_step(st, t[0]);
        assert(next.current == st.current.push(t[0]));
        assert(plain_word(t.drop_first()));
        lemma_run_word(next, t.drop_first());
        assert(st.current.push(t[0]) + t.drop_first() =~= st.current + t);
    }
}

/// `args` written one after another, each preceded by a space.
pub open spec fn spaced_args(args: Seq<Seq<char>>) -> Seq<char>
    decreases args.len(),
{
    if args.len() == 0 {
        Seq::empty()
    } else {
        spaced_args(args.drop_last()) + seq![' '] + args.last()
    }
}

/// A command line that quotes `program` and appends `args`, separated by spaces.
pub open spec fn quoted_command(program: Seq<char>, args: Seq<Seq<char>>) -> Seq<char> {
    seq!['"'] + program + seq!['"'] + spaced_args(args)
}

proof fn lemma_run_spaced_args(st: TokenState, args: Seq<Seq<char>>)
    requires
        !st.in_quotes,
        st.current.len() > 0,
        forall|k: int| 0 <= k < args.len() ==> (#[trigger] args[k]).len() > 0 && plain_word(args[k]),
    ensures
        args.len() == 0 ==> token_run(st, spaced_args(args)) == st,
        args.len() > 0 ==> token_run(st, spaced_args(args)) == (TokenState {
            tokens: st.tokens.push(st.current) + args.drop_last(),
            current: args.last(),
            in_quotes: false,
        }),
    decreases args.len(),
{
    if args.len() > 0 {
        let init = args.drop_last();
        assert forall|k: int| 0 <= k < init.len() implies (#[trigger] init[k]).len() > 0
            && plain_word(init[k]) by {
            assert(init[k] == args[k]);
        }
        lemma_run_spaced_args(st, init);
        let mid = token_run(st, spaced_args(init));
        lemma_token_run_concat(st, spaced_args(init), seq![' '] + args.last());
        assert(spaced_args(args) =~= spaced_args(init) + (seq![' '] + args.last()));
        lemma_token_run_concat(mid, seq![' '], args.last());
        assert(is_white_space(' '));
        assert(seq![' '].drop_first() =~= Seq::<char>::empty());
        let after_space = token_run(mid, seq![' ']);
        assert(after_space == token_step(mid, ' ')) by {
            reveal_with_fuel(token_run, 2);
        }
        assert(mid.current.len() > 0);
        assert(plain_word(args.last())) by {
            assert(args.last() == args[args.len() - 1]);
        }
        lemma_run_word(after_space, args.last());
        assert(Seq::<char>::empty() + args.last() =~= args.last());
        if init.len() == 0 {
            assert(st.tokens.push(st.current) + args.drop_last() =~= st.tokens.push(st.current));
        } else {
            assert(st.tokens.push(st.current) + init.drop_last() + seq![init.last()]
                =~= st.tokens.push(st.current) + args.drop_last());
            assert((st.tokens.push(st.current) + init.drop_last()).push(init.last())
                =~= st.tokens.push(st.current) + init.drop_last() + seq![init.last()]);
        }
    }
}

/// Quoting a program path and appending plain arguments round-trips: the parser gives
/// back the path (spaces and all) as the program and the arguments unchanged.
pub proof fn lemma_quoted_program_roundtrip(program: Seq<char>, args: Seq<Seq<char>>)
    requires
        program.len() > 0,
        quote_free(program),
        forall|k: int| 0 <= k < args.len() ==> (#[trigger] args[k]).len() > 0 && plain_word(args[k]),
    ensures
        command_program(quoted_command(program, args)) == program,
        command_args(quoted_command(program, args)) == args,
{
    let s = quoted_command(program, args);
    let st0 = token_start();
    lemma_token_run_concat(st0, seq!['"'], program + seq!['"'] + spaced_args(args));
    assert(s =~= seq!['"'] + (program + seq!['"'] + spaced_args(args)));
    assert(seq!['"'].drop_first() =~= Seq::<char>::empty());
    let st1 = token_run(st0, seq!['"']);
    assert(st1 == token_step(st0, '"')) by {
        reveal_with_fuel(token_run, 2);
    }
    lemma_token_run_concat(st1, program, seq!['"'] + spaced_args(args));
    assert(program + seq!['"'] + spaced_args(args) =~= program + (seq!['"'] + spaced_args(args)));
    lemma_run_quoted(st1, program);
    let st2 = token_run(st1, program);
    assert(st2.current =~= program);
    lemma_token_run_concat(st2, seq!['"'], spaced_args(args));
    let st3 = token_run(st2, seq!['"']);
    assert(st3 == token_step(st2, '"')) by {
        reveal_with_fuel(token_run, 2);
    }
    lemma_run_spaced_args(st3, args);
        if args.len() == 0 {
        assert(command_tokens(s) =~= seq![program]);
    } else {
        assert(command_tokens(s) =~= seq![program] + args.drop_last() + seq![args.last()]);
        assert(command_tokens(s) =~= seq![program] + args);
        assert(command_tokens(s).drop_first() =~= args);
    }
}

/// Reading one more character is one more step.
pub proof fn lemma_token_run_push(st: TokenState, s: Seq<char>, c: char)
    ensures
        token_run(st, s.push(c)) == token_step(token_run(st, s), c),
{
    lemma_token_run_concat(st, s, seq![c]);
    assert(s + seq![c] =~= s.push(c));
    assert(seq![c].drop_first() =~= Seq::<char>::empty());
    reveal_with_fuel(token_run, 2);
}

/// The tokens, program and arguments fit together: the tokens are the program
/// followed by the arguments, or none when the program is empty.
pub proof fn lemma_tokens_from_result(s: Seq<char>)
    ensures
        command_tokens(s) == if command_program(s).len() == 0 {
            Seq::<Seq<char>>::empty()
        } else {
            seq![command_program(s)] + command_args(s)
        },
{
    lemma_tokens_nonempty_unquoted(s);
    let t = command_tokens(s);
    if t.len() > 0 {
        assert(t[0].len() > 0);
        assert(seq![t[0]] + t.drop_first() =~= t);
    }
}

/// The number of `"` characters in `s`.
pub open spec fn count_quotes(s: Seq<char>) -> nat
    decreases s.len(),
{
    if s.len() == 0 {
        0
    } else {
        count_quotes(s.drop_last()) + if s.last() == '"' {
            1nat
        } else {
            0nat
        }
    }
}

/// The pieces of `s` cut at every whitespace character that follows an even number
/// of `"`, with the `"` characters removed (empty pieces included).
pub open spec fn raw_pieces(s: Seq<char>) -> Seq<Seq<char>>
    decreases s.len(),
{
    if s.len() == 0 {
        seq![Seq::empty()]
    } else {
        let p = raw_pieces(s.drop_last());
        let c = s.last();
        if c == '"' {
            p
        } else if is_white_space(c) && count_quotes(s.drop_last()) % 2 == 0 {
            p.push(Seq::empty())
        } else {
            p.drop_last().push(p.last().push(c))
        }
    }
}

/// The pieces of `s` cut at every whitespace character (empty pieces included).
pub open spec fn whitespace_pieces(s: Seq<char>) -> Seq<Seq<char>>
    decreases s.len(),
{
    if s.len() == 0 {
        seq![Seq::empty()]
    } else {
        let p = whitespace_pieces(s.drop_last());
        let c = s.last();
        if is_white_space(c) {
            p.push(Seq::empty())
        } else {
            p.drop_last().push(p.last().push(c))
        }
    }
}

/// The pieces of `ps` that are not empty, in order.
pub open spec fn nonempty_pieces(ps: Seq<Seq<char>>) -> Seq<Seq<char>>
    decreases ps.len(),
{
    if ps.len() == 0 {
        Seq::empty()
    } else {
        nonempty_pieces(ps.drop_last()) + if ps.last().len() > 0 {
            seq![ps.last()]
        } else {
            Seq::empty()
        }
    }
}

/// The tokenizer's state after `s`: quoting is the parity of the `"` read, the current
/// token is the last piece and the completed tokens are the earlier non-empty pieces.
proof fn lemma_run_pieces(s: Seq<char>)
    ensures
        raw_pieces(s).len() >= 1,
        token_run(token_start(), s).in_quotes == (count_quotes(s) % 2 == 1),
        token_run(token_start(), s).current == raw_pieces(s).last(),
        token_run(token_start(), s).tokens == nonempty_pieces(raw_pieces(s).drop_last()),
    decreases s.len(),
{
    if s.len() == 0 {
        assert(seq![Seq::<char>::empty()].drop_last() =~= Seq::<Seq<char>>::empty());
    } else {
        let s0 = s.drop_last();
        let c = s.last();
        lemma_run_pieces(s0);
        assert(s0.push(c) =~= s);
        lemma_token_run_push(token_start(), s0, c);
        let p = raw_pieces(s0);
        let st0 = token_run(token_start(), s0);
        if c == '"' {
        } else if is_white_space(c) && count_quotes(s0) % 2 == 0 {
            assert(p.push(Seq::<char>::empty()).drop_last() =~= p);
            assert(p.drop_last().push(p.last()) =~= p);
            if st0.current.len() > 0 {
                assert(nonempty_pieces(p) == nonempty_pieces(p.drop_last()) + seq![p.last()]);
                assert(nonempty_pieces(p.drop_last()) + seq![p.last()] =~= st0.tokens.push(
                    st0.current,
                ));
            } else {
                assert(nonempty_pieces(p) =~= nonempty_pieces(p.drop_last()));
            }
        } else {
            assert(p.drop_last().push(p.last().push(c)).drop_last() =~= p.drop_last());
        }
    }
}

/// The tokens of a command line are exactly the non-empty pieces of it cut at
/// whitespace outside quotes, with the quotes removed.
pub proof fn lemma_tokens_are_unquoted_pieces(s: Seq<char>)
    ensures
        command_tokens(s) == nonempty_pieces(raw_pieces(s)),
{
    lemma_run_pieces(s);
    let p = raw_pieces(s);
    assert(p.drop_last().push(p.last()) =~= p);
    assert(nonempty_pieces(p) == nonempty_pieces(p.drop_last()) + if p.last().len() > 0 {
        seq![p.last()]
    } else {
        Seq::<Seq<char>>::empty()
    });
    let st = token_run(token_start(), s);
    if st.current.len() > 0 {
        assert(st.tokens.push(st.current) =~= nonempty_pieces(p.drop_last()) + seq![p.last()]);
    } else {
        assert(nonempty_pieces(p) =~= nonempty_pieces(p.drop_last()));
    }
}

proof fn lemma_pieces_without_quotes(s: Seq<char>)
    requires
        quote_free(s),
    ensures
        raw_pieces(s) == whitespace_pieces(s),
        count_quotes(s) == 0,
    decreases s.len(),
{
    if s.len() > 0 {
        let s0 = s.drop_last();
        assert(quote_free(s0)) by {
            assert forall|j: int| 0 <= j < s0.len() implies #[trigger] s0[j] != '"' by {
                assert(s0[j] == s[j]);
            }
        }
        assert(s[s.len() - 1] != '"');
        lemma_pieces_without_quotes(s0);
    }
}

/// Without any `"`, the tokens are the whitespace-separated words of the line, as
/// `str::split_whitespace` gives them.
pub proof fn lemma_tokens_without_quotes(s: Seq<char>)
    requires
        quote_free(s),
    ensures
        command_tokens(s) == nonempty_pieces(whitespace_pieces(s)),
{
    lemma_tokens_are_unquoted_pieces(s);
    lemma_pieces_without_quotes(s);
}

/// Every token in quotes, joined by single spaces.
pub open spec fn quoted_words(ts: Seq<Seq<char>>) -> Seq<char>
    decreases ts.len(),
{
    if ts.len() == 0 {
        Seq::empty()
    } else if ts.len() == 1 {
        seq!['"'] + ts[0] + seq!['"']
    } else {
        quoted_words(ts.drop_last()) + seq![' '] + (seq!['"'] + ts.last() + seq!['"'])
    }
}

proof fn lemma_run_quoted_token(st: TokenState, t: Seq<char>)
    requires
        !st.in_quotes,
        st.current.len() == 0,
        quote_free(t),
    ensures
        token_run(st, seq!['"'] + t + seq!['"']) == (TokenState {
            tokens: st.tokens,
            current: t,
            in_quotes: false,
        }),
{
    lemma_token_run_concat(st, seq!['"'] + t, seq!['"']);
    lemma_token_run_concat(st, seq!['"'], t);
    reveal_with_fuel(token_run, 2);
    assert(seq!['"'].drop_first() =~= Seq::<char>::empty());
    let st1 = token_step(st, '"');
    assert(token_run(st, seq!['"']) == st1);
    lemma_run_quoted(st1, t);
    assert(st1.current + t =~= t);
    let st2 = token_run(st1, t);
    assert(token_run(st2, seq!['"']) == token_step(st2, '"'));
}

proof fn lemma_run_quoted_words(ts: Seq<Seq<char>>)
    requires
        ts.len() >= 1,
        forall|k: int| 0 <= k < ts.len() ==> (#[trigger] ts[k]).len() > 0 && quote_free(ts[k]),
    ensures
        token_run(token_start(), quoted_words(ts)) == (TokenState {
            tokens: ts.drop_last(),
            current: ts.last(),
            in_quotes: false,
        }),
    decreases ts.len(),
{
    if ts.len() == 1 {
        lemma_run_quoted_token(token_start(), ts[0]);
        assert(ts.drop_last() =~= Seq::<Seq<char>>::empty());
    } else {
        let init = ts.drop_last();
        assert forall|k: int| 0 <= k < init.len() implies (#[trigger] init[k]).len() > 0
            && quote_free(init[k]) by {
            assert(init[k] == ts[k]);
        }
        lemma_run_quoted_words(init);
        let st0 = token_run(token_start(), quoted_words(init));
        let q = seq!['"'] + ts.last() + seq!['"'];
        lemma_token_run_concat(token_start(), quoted_words(init) + seq![' '], q);
        lemma_token_run_push(token_start(), quoted_words(init), ' ');
        assert(quoted_words(init) + seq![' '] =~= quoted_words(init).push(' '));
        assert(is_white_space(' '));
        let st1 = token_step(st0, ' ');
        assert(init.last() == init[init.len() - 1]);
        assert(init.drop_last().push(init.last()) =~= init);
        assert(st1 == TokenState { tokens: init, current: Seq::empty(), in_quotes: false });
        assert(quote_free(ts.last())) by {
            assert(ts.last() == ts[ts.len() - 1]);
        }
        lemma_run_quoted_token(st1, ts.last());
        assert(ts.drop_last() =~= init);
        assert(quoted_words(ts) == quoted_words(init) + seq![' '] + q);
    }
}

/// Putting every token in quotes (spaces inside them allowed) and joining them with
/// single spaces round-trips through the parser.
pub proof fn lemma_quoted_words_roundtrip(ts: Seq<Seq<char>>)
    requires
        ts.len() >= 1,
        forall|k: int| 0 <= k < ts.len() ==> (#[trigger] ts[k]).len() > 0 && quote_free(ts[k]),
    ensures
        command_tokens(quoted_words(ts)) == ts,
        command_program(quoted_words(ts)) == ts[0],
        command_args(quoted_words(ts)) == ts.drop_first(),
{
    lemma_run_quoted_words(ts);
    assert(ts.last() == ts[ts.len() - 1]);
    assert(ts.drop_last().push(ts.last()) =~= ts);
}

/// Completed tokens already held do not change how the rest is read.
proof fn lemma_token_run_with_tokens(pre: Seq<Seq<char>>, st: TokenState, s: Seq<char>)
    ensures
        token_run(TokenState { tokens: pre + st.tokens, current: st.current, in_quotes: st.in_quotes }, s)
            == (TokenState {
            tokens: pre + token_run(st, s).tokens,
            current: token_run(st, s).current,
            in_quotes: token_run(st, s).in_quotes,
        }),
    decreases s.len(),
{
    if s.len() > 0 {
        let big = TokenState { tokens: pre + st.tokens, current: st.current, in_quotes: st.in_quotes };
        let nxt = token_step(st, s[0]);
        assert(token_step(big, s[0]) == TokenState {
            tokens: pre + nxt.tokens,
            current: nxt.current,
            in_quotes: nxt.in_quotes,
        }) by {
            assert((pre + st.tokens).push(st.current) =~= pre + st.tokens.push(st.current));
        }
        lemma_token_run_with_tokens(pre, nxt, s.drop_first());
    } else {
        assert(pre + st.tokens == pre + st.tokens);
    }
}

/// When the first part has balanced quotes, a line joined by a space is tokenized as
/// its two parts, one after the other.
pub proof fn lemma_tokens_concat(a: Seq<char>, b: Seq<char>)
    requires
        count_quotes(a) % 2 == 0,
    ensures
        command_tokens(a + seq![' '] + b) == command_tokens(a) + command_tokens(b),
{
    lemma_run_pieces(a);
    let sta = token_run(token_start(), a);
    lemma_token_run_concat(token_start(), a + seq![' '], b);
    lemma_token_run_push(token_start(), a, ' ');
    assert(a + seq![' '] =~= a.push(' '));
    assert(is_white_space(' '));
    let st1 = token_step(sta, ' ');
    let ta = command_tokens(a);
    assert(!sta.in_quotes);
    if sta.current.len() == 0 {
        assert(st1 == sta);
        assert(sta.current =~= Seq::<char>::empty());
    } else {
        assert(st1.tokens == sta.tokens.push(sta.current));
    }
    assert(st1 == TokenState { tokens: ta, current: Seq::empty(), in_quotes: false });
    assert(ta + token_start().tokens =~= ta);
    lemma_token_run_with_tokens(ta, token_start(), b);
    let stb = token_run(token_start(), b);
    if stb.current.len() > 0 {
        assert((ta + stb.tokens).push(stb.current) =~= ta + stb.tokens.push(stb.current));
    }
}

proof fn lemma_count_quotes_concat(x: Seq<char>, y: Seq<char>)
    ensures
        count_quotes(x + y) == count_quotes(x) + count_quotes(y),
    decreases y.len(),
{
    if y.len() == 0 {
        assert(x + y =~= x);
    } else {
        lemma_count_quotes_concat(x, y.drop_last());
        assert((x + y).drop_last() =~= x + y.drop_last());
        assert((x + y).last() == y.last());
    }
}

proof fn lemma_trim_start_same_run(s: Seq<char>)
    ensures
        token_run(token_start(), trim_start_by(s, |c: char| is_white_space(c))) == token_run(
            token_start(),
            s,
        ),
        count_quotes(trim_start_by(s, |c: char| is_white_space(c))) == count_quotes(s),
    decreases s.len(),
{
    if s.len() > 0 && is_white_space(s[0]) {
        lemma_trim_start_same_run(s.drop_first());
        assert(token_step(token_start(), s[0]) == token_start());
        assert(seq![s[0]] + s.drop_first() =~= s);
        lemma_count_quotes_concat(seq![s[0]], s.drop_first());
        assert(seq![s[0]].drop_last() =~= Seq::<char>::empty());
        assert(seq![s[0]].last() == s[0]);
        assert(s[0] != '"') by {
            assert(('"' as u32) == 0x22);
        }
        assert(count_quotes(seq![s[0]]) == 0) by {
            reveal_with_fuel(count_quotes, 2);
        }
    }
}

proof fn lemma_trim_end_same_tokens(t: Seq<char>)
    requires
        count_quotes(t) % 2 == 0,
    ensures
        command_tokens(trim_end_by(t, |c: char| is_white_space(c))) == command_tokens(t),
    decreases t.len(),
{
    if t.len() > 0 && is_white_space(t.last()) {
        let t0 = t.drop_last();
        assert(t.last() != '"') by {
            assert(('"' as u32) == 0x22);
        }
        lemma_trim_end_same_tokens(t0);
        lemma_run_pieces(t0);
        assert(t0.push(t.last()) =~= t);
        lemma_token_run_push(token_start(), t0, t.last());
        let st0 = token_run(token_start(), t0);
        if st0.current.len() == 0 {
            assert(token_step(st0, t.last()) == st0);
        }
    }
}

/// With balanced quotes, trimming the line first changes nothing.
pub proof fn lemma_tokens_trim(s: Seq<char>)
    requires
        count_quotes(s) % 2 == 0,
    ensures
        command_tokens(trim_ws(s)) == command_tokens(s),
        command_program(trim_ws(s)) == command_program(s),
        command_args(trim_ws(s)) == command_args(s),
{
    let ts = trim_start_by(s, |c: char| is_white_space(c));
    lemma_trim_start_same_run(s);
    lemma_trim_end_same_tokens(ts);
}

} // verus!
