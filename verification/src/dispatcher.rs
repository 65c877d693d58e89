//! The command dispatcher's decisions, as pure functions.
//!
//! Given the token list of one line, [`dispatch`] decides what the line asks
//! for: a builtin (`pwd`, `cd`, `echo`, `exit`, `type`), an external command,
//! or nothing.  The pieces a builtin needs are computed here too: the joined
//! output line for `echo`, the parsed exit code for `exit`, the
//! builtin-before-executable ruling for `type`, and the candidate files an
//! executable search walks.  Carrying the actions out — printing, spawning,
//! terminating the process — is the caller's part.

use vstd::prelude::*;

verus! {

/// An ASCII decimal digit.
pub open spec fn is_digit(c: char) -> bool {
    48 <= c as u32 <= 57
}

/// Its value.
pub open spec fn digit_val(c: char) -> int {
    c as u32 - 48
}

/// Whether every character is a digit.
pub open spec fn all_digits(s: Seq<char>) -> bool {
    forall|i: int| 0 <= i < s.len() ==> is_digit(#[trigger] s[i])
}

/// The number a digit string denotes, most significant digit first.
pub open spec fn digits_val(s: Seq<char>) -> int
    decreases s.len(),
{
    if s.len() == 0 {
        0
    } else {
        digits_val(s.drop_last()) * 10 + digit_val(s.last())
    }
}

/// What parsing an `exit` argument as a signed 32-bit integer means: an
/// optional sign, then one or more digits and nothing else, with the value in
/// range; anything else is a parse failure.
pub open spec fn parse_i32_spec(s: Seq<char>) -> Option<i32> {
    let ds = if s.len() > 0 && (s[0] == '+' || s[0] == '-') {
        s.skip(1)
    } else {
        s
    };
    let neg = s.len() > 0 && s[0] == '-';
    if ds.len() == 0 || !all_digits(ds) {
        None
    } else {
        let v = if neg {
            -digits_val(ds)
        } else {
            digits_val(ds)
        };
        if i32::MIN <= v <= i32::MAX {
            Some(v as i32)
        } else {
            None
        }
    }
}

/// A digit string's value is never negative.
proof fn lemma_digits_val_nonneg(s: Seq<char>)
    requires
        all_digits(s),
    ensures
        digits_val(s) >= 0,
    decreases s.len(),
{
    if s.len() > 0 {
        assert(all_digits(s.drop_last()));
        lemma_digits_val_nonneg(s.drop_last());
    }
}

/// Extending a digit string never shrinks its value.
proof fn lemma_digits_val_prefix(s: Seq<char>, k: int)
    requires
        all_digits(s),
        0 <= k <= s.len(),
    ensures
        digits_val(s.take(k)) <= digits_val(s),
    decreases s.len() - k,
{
    if k == s.len() {
        assert(s.take(k) =~= s);
    } else {
        assert(s.take(k + 1).drop_last() =~= s.take(k));
        assert(s.take(k + 1).last() == s[k]);
        assert(all_digits(s.take(k)));
        lemma_digits_val_nonneg(s.take(k));
        assert(digits_val(s.take(k)) <= digits_val(s.take(k + 1)));
        lemma_digits_val_prefix(s, k + 1);
    }
}

/// Parses an `exit` argument, exactly as [`parse_i32_spec`] reads it.
pub fn parse_i32(s: &str) -> (r: Option<i32>)
    ensures
        r == parse_i32_spec(s@),
{
    let n = s.unicode_len();
    let mut i: usize = 0;
    let mut neg = false;
    if n > 0 {
        let c0 = s.get_char(0);
        if c0 == '+' {
            i = 1;
        } else if c0 == '-' {
            neg = true;
            i = 1;
        }
    }
    let start = i;
    let ghost ds = if start == 1 {
        s@.skip(1)
    } else {
        s@
    };
    assert(s@.skip(0) =~= s@);
    if i == n {
        return None;
    }
    let limit: u64 = if neg {
        2147483648
    } else {
        2147483647
    };
    let mut acc: u64 = 0;
    assert(ds.take(0) =~= Seq::<char>::empty());
    while i < n
        invariant
            start <= i <= n,
            start <= 1,
            n == s@.len(),
            ds == if start == 1 {
                s@.skip(1)
            } else {
                s@
            },
            ds.len() == n - start,
            limit == if neg {
                2147483648u64
            } else {
                2147483647u64
            },
            neg == (s@.len() > 0 && s@[0] == '-'),
            start == 1 <==> (s@.len() > 0 && (s@[0] == '+' || s@[0] == '-')),
            all_digits(ds.take(i - start)),
            acc == digits_val(ds.take(i - start)),
            acc <= limit,
        decreases n - i,
    {
        let ghost k = i - start;
        assert(ds[k as int] == s@[i as int]);
        let c = s.get_char(i);
        let cu = c as u32;
        if cu < 48 || cu > 57 {
            assert(!is_digit(ds[k as int]));
            return None;
        }
        let d = (cu - 48) as u64;
        assert(ds.take(k + 1).drop_last() =~= ds.take(k as int));
        assert(ds.take(k + 1).last() == ds[k as int]);
        assert(all_digits(ds.take(k + 1)));
        let next = acc * 10 + d;
        if next > limit {
            proof {
                if all_digits(ds) {
                    lemma_digits_val_prefix(ds, k + 1);
                    assert(digits_val(ds) >= next);
                }
            }
            return None;
        }
        acc = next;
        i = i + 1;
    }
    assert(ds.take(i - start) =~= ds);
    if neg {
        let v = -(acc as i64);
        Some(v as i32)
    } else {
        Some(acc as i32)
    }
}

/// One line of `echo` output: the tokens joined with single spaces.
pub open spec fn join_spaces(ts: Seq<Seq<char>>) -> Seq<char>
    decreases ts.len(),
{
    if ts.len() == 0 {
        Seq::empty()
    } else if ts.len() == 1 {
        ts[0]
    } else {
        ts[0] + seq![' '] + join_spaces(ts.skip(1))
    }
}

/// Joins the tokens from position `from` on with single spaces, as
/// [`join_spaces`] describes.
pub fn join_tokens(args: &Vec<String>, from: usize) -> (r: String)
    requires
        from <= args.len(),
    ensures
        r@ == join_spaces(args.deep_view().skip(from as int)),
    decreases args.len() - from,
{
    let ghost tail = args.deep_view().skip(from as int);
    if from == args.len() {
        assert(tail =~= Seq::<Seq<char>>::empty());
        String::new()
    } else if from + 1 == args.len() {
        assert(tail.len() == 1);
        assert(tail[0] == args@[from as int]@);
        args[from].clone()
    } else {
        let mut r = args[from].clone();
        let sep = " ";
        proof {
            reveal_strlit(" ");
        }
        assert(sep@ =~= seq![' ']);
        r.append(sep);
        let rest = join_tokens(args, from + 1);
        r.append(rest.as_str());
        proof {
            assert(tail[0] == args@[from as int]@);
            assert(tail.skip(1) =~= args.deep_view().skip(from + 1));
            assert(r@ =~= tail[0] + seq![' '] + join_spaces(tail.skip(1)));
        }
        r
    }
}

/// Compares a token with a keyword.
fn is_kw(s: &String, kw: &str) -> (r: bool)
    ensures
        r == (s@ == kw@),
{
    let k = kw.to_owned();
    *s == k
}

/// The names the interpreter implements in-process.
pub open spec fn is_builtin_name(s: Seq<char>) -> bool {
    s == "cd"@ || s == "pwd"@ || s == "exit"@ || s == "echo"@ || s == "type"@
}

/// Whether a command name is a builtin.
pub fn is_builtin(cmd: &String) -> (r: bool)
    ensures
        r == is_builtin_name(cmd@),
{
    is_kw(cmd, "cd") || is_kw(cmd, "pwd") || is_kw(cmd, "exit") || is_kw(cmd, "echo") || is_kw(
        cmd,
        "type",
    )
}

/// What the `type` builtin reports for a name.
#[derive(Debug, PartialEq)]
pub enum TypeAnswer {
    /// The name is a shell builtin.
    Builtin,
    /// The name was found on the search path, at this file.
    External(String),
    /// Neither a builtin nor on the search path.
    NotFound,
}

/// The `type` ruling for a command name, where `found` is what the
/// executable search on the environment's search path turned up.  A builtin
/// name is reported as a builtin whatever the search found: builtins take
/// precedence over an identically-named executable.
pub fn classify(cmd: &String, found: Option<String>) -> (r: TypeAnswer)
    ensures
        is_builtin_name(cmd@) ==> r is Builtin,
        !is_builtin_name(cmd@) ==> match found {
            Some(p) => r matches TypeAnswer::External(q) && q@ == p@,
            None => r is NotFound,
        },
{
    if is_builtin(cmd) {
        TypeAnswer::Builtin
    } else {
        match found {
            Some(p) => TypeAnswer::External(p),
            None => TypeAnswer::NotFound,
        }
    }
}

/// What one tokenized line asks the interpreter to do.  The caller carries
/// the action out; everything decidable without I/O is decided here.
#[derive(Debug, PartialEq)]
pub enum Action {
    /// An empty line: nothing to do.
    Nop,
    /// Print the working directory.
    Pwd,
    /// Change the working directory to the one the argument resolves to.
    Cd(String),
    /// Print the joined argument line.
    Echo(String),
    /// Terminate with the parsed code; `None` is a reported parse failure.
    Exit(Option<i32>),
    /// Report what the name is, builtins first.
    TypeQuery(String),
    /// Run an external command with these arguments.
    Execute(String, Vec<String>),
}

/// What the dispatch of a token list must decide: the builtins with their
/// expected argument counts, an empty line as a no-op, and everything else —
/// including a builtin name with an argument count it does not take — as an
/// external command.
pub open spec fn matches_action(ts: Seq<Seq<char>>, r: Action) -> bool {
    if ts.len() == 0 {
        r is Nop
    } else if ts[0] == "pwd"@ && ts.len() == 1 {
        r is Pwd
    } else if ts[0] == "cd"@ && ts.len() == 2 {
        r matches Action::Cd(t) && t@ == ts[1]
    } else if ts[0] == "echo"@ {
        r matches Action::Echo(line) && line@ == join_spaces(ts.skip(1))
    } else if ts[0] == "exit"@ && ts.len() == 2 {
        r matches Action::Exit(c) && c == parse_i32_spec(ts[1])
    } else if ts[0] == "exit"@ && ts.len() == 1 {
        r matches Action::Exit(c) && c == Some(0i32)
    } else if ts[0] == "type"@ && ts.len() == 2 {
        r matches Action::TypeQuery(t) && t@ == ts[1]
    } else {
        r matches Action::Execute(cmd, args) && cmd@ == ts[0] && args.deep_view() == ts.skip(1)
    }
}

/// Decides what a tokenized line asks for.
pub fn dispatch(tokens: &Vec<String>) -> (r: Action)
    ensures
        matches_action(tokens.deep_view(), r),
{
    let ghost ts = tokens.deep_view();
    if tokens.len() == 0 {
        return Action::Nop;
    }
    assert(ts[0] == tokens@[0]@);
    let t0 = &tokens[0];
    if is_kw(t0, "pwd") && tokens.len() == 1 {
        Action::Pwd
    } else if is_kw(t0, "cd") && tokens.len() == 2 {
        assert(ts[1] == tokens@[1]@);
        Action::Cd(tokens[1].clone())
    } else if is_kw(t0, "echo") {
        Action::Echo(join_tokens(tokens, 1))
    } else if is_kw(t0, "exit") && tokens.len() == 2 {
        assert(ts[1] == tokens@[1]@);
        Action::Exit(parse_i32(tokens[1].as_str()))
    } else if is_kw(t0, "exit") && tokens.len() == 1 {
        Action::Exit(Some(0))
    } else if is_kw(t0, "type") && tokens.len() == 2 {
        assert(ts[1] == tokens@[1]@);
        Action::TypeQuery(tokens[1].clone())
    } else {
        let mut args: Vec<String> = Vec::new();
        let mut i: usize = 1;
        assert(args.deep_view() =~= ts.subrange(1, 1));
        while i < tokens.len()
            invariant
                1 <= i <= tokens.len(),
                ts == tokens.deep_view(),
                args.deep_view() == ts.subrange(1, i as int),
            decreases tokens.len() - i,
        {
            let ghost prev = args.deep_view();
            args.push(tokens[i].clone());
            assert(args.deep_view() =~= prev.push(tokens@[i as int]@));
            assert(args.deep_view() =~= ts.subrange(1, i + 1));
            i = i + 1;
        }
        assert(args.deep_view() =~= ts.skip(1));
        Action::Execute(tokens[0].clone(), args)
    }
}

/// Splitting a colon-delimited search path, one character at a time: `cur`
/// is the segment under construction, `acc` the segments already complete.
/// Every colon ends a segment, so empty segments are kept.
pub open spec fn split_scan(s: Seq<char>, i: int, cur: Seq<char>, acc: Seq<Seq<char>>) -> Seq<
    Seq<char>,
>
    decreases s.len() - i,
{
    if i >= s.len() {
        acc.push(cur)
    } else if s[i] == ':' {
        split_scan(s, i + 1, Seq::empty(), acc.push(cur))
    } else {
        split_scan(s, i + 1, cur.push(s[i]), acc)
    }
}

/// The segments of a colon-delimited search path.
pub open spec fn split_colon(s: Seq<char>) -> Seq<Seq<char>> {
    split_scan(s, 0, Seq::empty(), Seq::empty())
}

/// The file an executable search probes in one search-path segment: the
/// command name hung under the segment, or the name itself when it is
/// already absolute or the segment is empty.
pub open spec fn search_candidate(seg: Seq<char>, cmd: Seq<char>) -> Seq<char> {
    if cmd.len() > 0 && cmd[0] == '/' {
        cmd
    } else if seg.len() == 0 {
        cmd
    } else if seg.last() == '/' {
        seg + cmd
    } else {
        seg + seq!['/'] + cmd
    }
}

/// The files an executable search probes, in search-path order.
pub open spec fn candidates_spec(path_var: Seq<char>, cmd: Seq<char>) -> Seq<Seq<char>> {
    split_colon(path_var).map_values(|seg: Seq<char>| search_candidate(seg, cmd))
}

/// Builds the probe file for one segment, as [`search_candidate`] names it.
fn candidate_file(seg: &str, cmd: &str) -> (res: String)
    ensures
        res@ == search_candidate(seg@, cmd@),
{
    let nc = cmd.unicode_len();
    let ns = seg.unicode_len();
    if (nc > 0 && cmd.get_char(0) == '/') || ns == 0 {
        cmd.to_owned()
    } else {
        let mut s = seg.to_owned();
        if seg.get_char(ns - 1) != '/' {
            let sep = "/";
            proof {
                reveal_strlit("/");
            }
            assert(sep@ =~= seq!['/']);
            s.append(sep);
        }
        s.append(cmd);
        assert(seg@.last() != '/' ==> s@ =~= seg@ + seq!['/'] + cmd@);
        s
    }
}

/// Computes, in order, the files an executable search for `cmd` would probe,
/// one for each segment of the colon-delimited `path_var`.  Which of them
/// exists is for the caller to find out, first match winning.
pub fn path_candidates(path_var: &str, cmd: &str) -> (r: Vec<String>)
    ensures
        r.deep_view() == candidates_spec(path_var@, cmd@),
{
    let ghost f = |seg: Seq<char>| search_candidate(seg, cmd@);
    let n = path_var.unicode_len();
    let mut i: usize = 0;
    let mut cur = String::new();
    let mut out: Vec<String> = Vec::new();
    let ghost mut segs = Seq::<Seq<char>>::empty();
    assert(out.deep_view() =~= segs.map_values(f));
    while i < n
        invariant
            i <= n,
            n == path_var@.len(),
            f == (|seg: Seq<char>| search_candidate(seg, cmd@)),
            split_scan(path_var@, i as int, cur@, segs) == split_colon(path_var@),
            out.deep_view() == segs.map_values(f),
        decreases n - i,
    {
        let c = path_var.get_char(i);
        if c == ':' {
            let ghost prev = out.deep_view();
            out.push(candidate_file(cur.as_str(), cmd));
            proof {
                segs = segs.push(cur@);
            }
            cur = String::new();
            assert(out.deep_view() =~= prev.push(out[out.len() - 1]@));
            assert(out.deep_view() =~= segs.map_values(f));
        } else {
            crate::tokenizer::push_char(&mut cur, c);
        }
        i = i + 1;
    }
    let ghost prev = out.deep_view();
    out.push(candidate_file(cur.as_str(), cmd));
    proof {
        segs = segs.push(cur@);
    }
    assert(out.deep_view() =~= prev.push(out[out.len() - 1]@));
    assert(out.deep_view() =~= segs.map_values(f));
    out
}

} // verus!
