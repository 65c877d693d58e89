//! The argument tokenizer: a quote-and-escape-aware lexer that splits one raw
//! input line into an ordered list of argument strings.
//!
//! The grammar is a small shell-style subset.  Outside quotes, runs of spaces
//! separate arguments and a backslash takes the next character literally.
//! Single quotes take everything literally; double quotes take everything
//! literally except that a backslash escapes `\`, `$` and `"`.  A line that
//! ends inside a quoted region of either kind is a syntax error: the grammar
//! deliberately treats the two quote kinds alike here, so that no line with
//! an unbalanced quote is ever dispatched.

use vstd::prelude::*;

verus! {

/// The lexing mode the tokenizer is in while scanning one character.
#[derive(Clone, Copy, PartialEq, Eq, Structural)]
pub enum Mode {
    /// Outside any quotes: spaces delimit, backslash escapes anything.
    Normal,
    /// Between single quotes: every character is literal.
    InSingle,
    /// Between double quotes: literal except `\\`, `\$` and `\"`.
    InDouble,
}

/// The tokenizer's one failure: the line ended inside a quoted region.
#[derive(Clone, Copy, PartialEq, Eq, Structural, Debug)]
pub enum SyntaxError {
    UnbalancedQuote,
}

/// Appends the in-progress token to the output if it is non-empty; a run of
/// delimiters therefore never produces an empty argument.
pub open spec fn emit(cur: Seq<char>, acc: Seq<Seq<char>>) -> Seq<Seq<char>> {
    if cur.len() > 0 {
        acc.push(cur)
    } else {
        acc
    }
}

/// One step of the lexer, as a function of the whole line `s`, the scan
/// position `i`, the current mode, the token under construction and the
/// tokens already emitted.  `None` is the syntax error.
pub open spec fn lex(
    s: Seq<char>,
    i: int,
    mode: Mode,
    cur: Seq<char>,
    acc: Seq<Seq<char>>,
) -> Option<Seq<Seq<char>>>
    decreases s.len() - i,
{
    if i >= s.len() {
        match mode {
            Mode::Normal => Some(emit(cur, acc)),
            _ => None,
        }
    } else {
        let c = s[i];
        match mode {
            Mode::Normal => {
                if c == '\\' {
                    if i + 1 < s.len() {
                        lex(s, i + 2, Mode::Normal, cur.push(s[i + 1]), acc)
                    } else {
                        lex(s, i + 1, Mode::Normal, cur, acc)
                    }
                } else if c == '\'' {
                    lex(s, i + 1, Mode::InSingle, cur, acc)
                } else if c == '"' {
                    lex(s, i + 1, Mode::InDouble, cur, acc)
                } else if c == ' ' {
                    if cur.len() > 0 {
                        lex(s, i + 1, Mode::Normal, Seq::empty(), acc.push(cur))
                    } else {
                        lex(s, i + 1, Mode::Normal, cur, acc)
                    }
                } else {
                    lex(s, i + 1, Mode::Normal, cur.push(c), acc)
                }
            },
            Mode::InSingle => {
                if c == '\'' {
                    lex(s, i + 1, Mode::Normal, cur, acc)
                } else {
                    lex(s, i + 1, Mode::InSingle, cur.push(c), acc)
                }
            },
            Mode::InDouble => {
                if c == '"' {
                    lex(s, i + 1, Mode::Normal, cur, acc)
                } else if c == '\\' {
                    if i + 1 < s.len() && (s[i + 1] == '\\' || s[i + 1] == '$' || s[i + 1] == '"') {
                        lex(s, i + 2, Mode::InDouble, cur.push(s[i + 1]), acc)
                    } else if i + 1 < s.len() {
                        lex(s, i + 1, Mode::InDouble, cur.push('\\'), acc)
                    } else {
                        lex(s, i + 1, Mode::InDouble, cur, acc)
                    }
                } else {
                    lex(s, i + 1, Mode::InDouble, cur.push(c), acc)
                }
            },
        }
    }
}

/// What tokenizing a whole line means: run the lexer from the start, outside
/// quotes, with nothing accumulated.
pub open spec fn tokenize_spec(s: Seq<char>) -> Option<Seq<Seq<char>>> {
    lex(s, 0, Mode::Normal, Seq::empty(), Seq::empty())
}

/// A token list re-joined into one line: each token wrapped in fresh single
/// quotes, tokens separated by single spaces.
pub open spec fn quote_wrap(t: Seq<char>) -> Seq<char> {
    seq!['\''] + t + seq!['\'']
}

/// See `quote_wrap`: the whole re-joined line.
pub open spec fn rejoin(toks: Seq<Seq<char>>) -> Seq<char>
    decreases toks.len(),
{
    if toks.len() == 0 {
        Seq::empty()
    } else if toks.len() == 1 {
        quote_wrap(toks[0])
    } else {
        quote_wrap(toks[0]) + seq![' '] + rejoin(toks.skip(1))
    }
}

/// The lexer only ever emits non-empty tokens, provided everything emitted
/// so far is non-empty.
proof fn lemma_lex_nonempty(s: Seq<char>, i: int, mode: Mode, cur: Seq<char>, acc: Seq<Seq<char>>)
    requires
        forall|j: int| 0 <= j < acc.len() ==> acc[j].len() > 0,
        lex(s, i, mode, cur, acc) is Some,
    ensures
        forall|j: int|
            0 <= j < lex(s, i, mode, cur, acc).unwrap().len() ==> lex(
                s,
                i,
                mode,
                cur,
                acc,
            ).unwrap()[j].len() > 0,
    decreases s.len() - i,
{
    if i >= s.len() {
    } else {
        let c = s[i];
        match mode {
            Mode::Normal => {
                if c == '\\' {
                    if i + 1 < s.len() {
                        lemma_lex_nonempty(s, i + 2, Mode::Normal, cur.push(s[i + 1]), acc);
                    } else {
                        lemma_lex_nonempty(s, i + 1, Mode::Normal, cur, acc);
                    }
                } else if c == '\'' {
                    lemma_lex_nonempty(s, i + 1, Mode::InSingle, cur, acc);
                } else if c == '"' {
                    lemma_lex_nonempty(s, i + 1, Mode::InDouble, cur, acc);
                } else if c == ' ' {
                    if cur.len() > 0 {
                        lemma_lex_nonempty(s, i + 1, Mode::Normal, Seq::empty(), acc.push(cur));
                    } else {
                        lemma_lex_nonempty(s, i + 1, Mode::Normal, cur, acc);
                    }
                } else {
                    lemma_lex_nonempty(s, i + 1, Mode::Normal, cur.push(c), acc);
                }
            },
            Mode::InSingle => {
                if c == '\'' {
                    lemma_lex_nonempty(s, i + 1, Mode::Normal, cur, acc);
                } else {
                    lemma_lex_nonempty(s, i + 1, Mode::InSingle, cur.push(c), acc);
                }
            },
            Mode::InDouble => {
                if c == '"' {
                    lemma_lex_nonempty(s, i + 1, Mode::Normal, cur, acc);
                } else if c == '\\' {
                    if i + 1 < s.len() && (s[i + 1] == '\\' || s[i + 1] == '$' || s[i + 1] == '"') {
                        lemma_lex_nonempty(s, i + 2, Mode::InDouble, cur.push(s[i + 1]), acc);
                    } else if i + 1 < s.len() {
                        lemma_lex_nonempty(s, i + 1, Mode::InDouble, cur.push('\\'), acc);
                    } else {
                        lemma_lex_nonempty(s, i + 1, Mode::InDouble, cur, acc);
                    }
                } else {
                    lemma_lex_nonempty(s, i + 1, Mode::InDouble, cur.push(c), acc);
                }
            },
        }
    }
}

/// Every token a successful tokenization produces is non-empty.
pub proof fn lemma_tokenize_nonempty(s: Seq<char>, toks: Seq<Seq<char>>)
    requires
        tokenize_spec(s) == Some(toks),
    ensures
        forall|j: int| 0 <= j < toks.len() ==> (#[trigger] toks[j]).len() > 0,
{
    lemma_lex_nonempty(s, 0, Mode::Normal, Seq::empty(), Seq::empty());
    assert(toks == lex(s, 0, Mode::Normal, Seq::<char>::empty(), Seq::<Seq<char>>::empty()).unwrap());
}

/// Scanning a quote-free chunk inside single quotes appends it, verbatim, to
/// the token under construction.
proof fn lemma_single_chunk(s: Seq<char>, i: int, t: Seq<char>, cur: Seq<char>, acc: Seq<Seq<char>>)
    requires
        0 <= i,
        i + t.len() <= s.len(),
        s.subrange(i, i + t.len()) == t,
        !t.contains('\''),
    ensures
        lex(s, i, Mode::InSingle, cur, acc) == lex(
            s,
            i + t.len(),
            Mode::InSingle,
            cur + t,
            acc,
        ),
    decreases t.len(),
{
    if t.len() == 0 {
        assert(cur + t =~= cur);
    } else {
        assert(s[i] == t[0]);
        assert(t.contains('\'') <== t[0] == '\'');
        let t2 = t.skip(1);
        assert(s.subrange(i + 1, i + 1 + t2.len()) =~= t2);
        assert(!t2.contains('\'')) by {
            assert(forall|j: int| 0 <= j < t2.len() ==> t2[j] == t[j + 1]);
        }
        lemma_single_chunk(s, i + 1, t2, cur.push(t[0]), acc);
        assert(cur.push(t[0]) + t2 =~= cur + t);
    }
}

/// Scanning a whole single-quoted, quote-free token from `Normal` mode
/// appends it to the token under construction and returns to `Normal`.
proof fn lemma_quoted_token(s: Seq<char>, i: int, t: Seq<char>, cur: Seq<char>, acc: Seq<Seq<char>>)
    requires
        0 <= i,
        i + t.len() + 2 <= s.len(),
        s.subrange(i, i + t.len() + 2) == quote_wrap(t),
        !t.contains('\''),
    ensures
        lex(s, i, Mode::Normal, cur, acc) == lex(s, i + t.len() + 2, Mode::Normal, cur + t, acc),
{
    let m = t.len() as int;
    assert(s[i] == quote_wrap(t)[0]);
    assert(s[i] == '\'');
    let a = s.subrange(i, i + m + 2);
    assert forall|k: int| 0 <= k < m implies s[i + 1 + k] == t[k] by {
        assert(a[1 + k] == s[i + 1 + k]);
        assert(a[1 + k] == t[k]);
    }
    assert(s.subrange(i + 1, i + 1 + m) =~= t);
    lemma_single_chunk(s, i + 1, t, cur, acc);
    assert(s[i + 1 + m] == quote_wrap(t)[m + 1]);
    assert(s[i + 1 + m] == '\'');
}

/// When the remainder of the line is exactly the re-joined form of `toks`,
/// the lexer finishes with the tokens already emitted followed by `toks`.
proof fn lemma_rejoin_scan(s: Seq<char>, i: int, toks: Seq<Seq<char>>, acc: Seq<Seq<char>>)
    requires
        0 <= i <= s.len(),
        s.subrange(i, s.len() as int) == rejoin(toks),
        forall|j: int| 0 <= j < toks.len() ==> (#[trigger] toks[j]).len() > 0,
        forall|j: int| 0 <= j < toks.len() ==> !(#[trigger] toks[j]).contains('\''),
    ensures
        lex(s, i, Mode::Normal, Seq::empty(), acc) == Some(acc + toks),
    decreases toks.len(),
{
    if toks.len() == 0 {
        assert(i == s.len());
        assert(emit(Seq::empty(), acc) =~= acc + toks);
    } else if toks.len() == 1 {
        let t = toks[0];
        let m = t.len() as int;
        assert(s.subrange(i, i + m + 2) =~= quote_wrap(t));
        lemma_quoted_token(s, i, t, Seq::empty(), acc);
        assert(Seq::empty() + t =~= t);
        assert(i + m + 2 == s.len());
        assert(emit(t, acc) =~= acc + toks);
    } else {
        let t = toks[0];
        let m = t.len() as int;
        let rest = toks.skip(1);
        assert(s.subrange(i, s.len() as int) == quote_wrap(t) + seq![' '] + rejoin(rest));
        assert(s.subrange(i, i + m + 2) =~= quote_wrap(t));
        lemma_quoted_token(s, i, t, Seq::empty(), acc);
        assert(Seq::empty() + t =~= t);
        assert(s[i + m + 2] == (quote_wrap(t) + seq![' '] + rejoin(rest))[m + 2]);
        assert(s[i + m + 2] == ' ');
        assert(lex(s, i + m + 2, Mode::Normal, t, acc) == lex(
            s,
            i + m + 3,
            Mode::Normal,
            Seq::empty(),
            acc.push(t),
        ));
        let a = s.subrange(i, s.len() as int);
        assert forall|k: int| 0 <= k < s.len() - (i + m + 3) implies s[i + m + 3 + k] == rejoin(
            rest,
        )[k] by {
            assert(a[m + 3 + k] == s[i + m + 3 + k]);
            assert(a[m + 3 + k] == rejoin(rest)[k]);
        }
        assert(s.subrange(i + m + 3, s.len() as int) =~= rejoin(rest));
        assert(forall|j: int| 0 <= j < rest.len() ==> rest[j] == toks[j + 1]);
        lemma_rejoin_scan(s, i + m + 3, rest, acc.push(t));
        assert(acc.push(t) + rest =~= acc + toks);
    }
}

/// Re-tokenizing the tokenizer's own output reproduces it: wrap each token of
/// a successful tokenization in fresh single quotes, join them with single
/// spaces, and tokenizing that line yields the same token list.  (Tokenizing
/// is a function of the line alone, so it is deterministic by construction.)
/// The law asks that no token hold a single-quote character: such a token
/// cannot be wrapped in single quotes again.
pub proof fn lemma_tokenize_requote(s: Seq<char>, toks: Seq<Seq<char>>)
    requires
        tokenize_spec(s) == Some(toks),
        forall|j: int| 0 <= j < toks.len() ==> !(#[trigger] toks[j]).contains('\''),
    ensures
        tokenize_spec(rejoin(toks)) == Some(toks),
{
    lemma_tokenize_nonempty(s, toks);
    let s2 = rejoin(toks);
    assert(s2.subrange(0, s2.len() as int) =~= s2);
    lemma_rejoin_scan(s2, 0, toks, Seq::empty());
    assert(Seq::empty() + toks =~= toks);
}

/// Relies on String::push: appends exactly the one character.
#[verifier::external_body]
pub(crate) fn push_char(s: &mut String, c: char)
    ensures
        final(s)@ == old(s)@.push(c),
{
    s.push(c);
}

/// Splits one raw input line into its argument tokens, or reports the line
/// as unbalanced.  The result is exactly what the lexer `tokenize_spec`
/// assigns to the line.
pub fn tokenize(line: &str) -> (r: Result<Vec<String>, SyntaxError>)
    ensures
        match r {
            Ok(toks) => tokenize_spec(line@) == Some(toks.deep_view()),
            Err(e) => tokenize_spec(line@) is None && e == SyntaxError::UnbalancedQuote,
        },
{
    let n = line.unicode_len();
    let mut i: usize = 0;
    let mut mode = Mode::Normal;
    let mut cur = String::new();
    let mut out: Vec<String> = Vec::new();
    assert(out.deep_view() =~= Seq::<Seq<char>>::empty());
    while i < n
        invariant
            i <= n,
            n == line@.len(),
            lex(line@, i as int, mode, cur@, out.deep_view()) == tokenize_spec(line@),
        decreases n - i,
    {
        let ghost prev = out.deep_view();
        let c = line.get_char(i);
        match mode {
            Mode::Normal => {
                if c == '\\' {
                    if i + 1 < n {
                        let c2 = line.get_char(i + 1);
                        push_char(&mut cur, c2);
                        i = i + 2;
                    } else {
                        i = i + 1;
                    }
                } else if c == '\'' {
                    mode = Mode::InSingle;
                    i = i + 1;
                } else if c == '"' {
                    mode = Mode::InDouble;
                    i = i + 1;
                } else if c == ' ' {
                    if !cur.as_str().is_empty() {
                        out.push(cur);
                        cur = String::new();
                        assert(out.deep_view() =~= prev.push(out[out.len() - 1]@));
                    }
                    i = i + 1;
                } else {
                    push_char(&mut cur, c);
                    i = i + 1;
                }
            },
            Mode::InSingle => {
                if c == '\'' {
                    mode = Mode::Normal;
                } else {
                    push_char(&mut cur, c);
                }
                i = i + 1;
            },
            Mode::InDouble => {
                if c == '"' {
                    mode = Mode::Normal;
                    i = i + 1;
                } else if c == '\\' {
                    if i + 1 < n {
                        let c2 = line.get_char(i + 1);
                        if c2 == '\\' || c2 == '$' || c2 == '"' {
                            push_char(&mut cur, c2);
                            i = i + 2;
                        } else {
                            push_char(&mut cur, '\\');
                            i = i + 1;
                        }
                    } else {
                        i = i + 1;
                    }
                } else {
                    push_char(&mut cur, c);
                    i = i + 1;
                }
            },
        }
    }
    match mode {
        Mode::Normal => {
            let ghost prev = out.deep_view();
            if !cur.as_str().is_empty() {
                out.push(cur);
                assert(out.deep_view() =~= prev.push(out[out.len() - 1]@));
            }
            Ok(out)
        },
        _ => Err(SyntaxError::UnbalancedQuote),
    }
}

} // verus!
