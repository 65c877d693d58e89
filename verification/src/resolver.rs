//! The working-directory resolver.
//!
//! A `Wd` owns the interpreter's one mutable piece of state: the current
//! working directory, always an absolute path.  A `cd` argument is a chain of
//! recognized prefixes — `./` (or bare `.`), `../` (or bare `..`) and `~`
//! (bare or `~/`) — consumed left to right, followed by a final segment that
//! is taken relative to the base reached so far (or absolute, if it starts
//! with `/`).  Resolution itself is pure: it computes a candidate path and
//! never touches the stored directory.  Whether the candidate exists on the
//! filesystem is the caller's affair; the caller reports that answer back to
//! [`Wd::cd`], which commits the candidate exactly when resolution succeeded
//! and the candidate exists, and otherwise leaves the directory untouched.

use vstd::prelude::*;

verus! {

/// Why a `cd` can fail.
#[derive(Clone, Copy, PartialEq, Eq, Structural, Debug)]
pub enum CdError {
    /// `..` was applied while the base was already the filesystem root.
    NoParent,
    /// `~` was used but no absolute home directory is available.
    NoHome,
    /// The resolved candidate does not exist on the filesystem.
    NotFound,
}

/// An absolute path: non-empty and rooted.
pub open spec fn is_abs(p: Seq<char>) -> bool {
    p.len() > 0 && p[0] == '/'
}

/// The path without its trailing slashes; a lone leading slash stays.
pub open spec fn strip_trailing(p: Seq<char>) -> Seq<char>
    decreases p.len(),
{
    if p.len() > 1 && p.last() == '/' {
        strip_trailing(p.drop_last())
    } else {
        p
    }
}

/// Whether an absolute path denotes the filesystem root.
pub open spec fn at_root(p: Seq<char>) -> bool {
    strip_trailing(p).len() == 1
}

/// Index of the last `/` in the path, or -1 when there is none.
pub open spec fn last_slash(p: Seq<char>) -> int
    decreases p.len(),
{
    if p.len() == 0 {
        -1
    } else if p.last() == '/' {
        p.len() - 1
    } else {
        last_slash(p.drop_last())
    }
}

/// The parent of an absolute path that is not the root: trailing slashes go,
/// then the last component goes.
pub open spec fn parent_of(p: Seq<char>) -> Seq<char> {
    let q = strip_trailing(p);
    let j = last_slash(q);
    if j <= 0 {
        seq!['/']
    } else {
        q.subrange(0, j)
    }
}

/// Path join as the resolver uses it: a relative final segment hangs under
/// the base, with one separating slash added when the base does not already
/// end in one.
pub open spec fn join_path(base: Seq<char>, r: Seq<char>) -> Seq<char> {
    if base.last() == '/' {
        base + r
    } else {
        base + seq!['/'] + r
    }
}

/// The home directory as the resolver sees it.
pub open spec fn spec_home(home: Option<&str>) -> Option<Seq<char>> {
    match home {
        Some(h) => Some(h@),
        None => None,
    }
}

/// Pure resolution of a path expression `e` against the base directory:
/// recognized prefixes are consumed left to right, then the final segment
/// decides the candidate.  A home value that is not an absolute path counts
/// as unset, so that a committed candidate is always absolute.
pub open spec fn resolve_spec(base: Seq<char>, home: Option<Seq<char>>, e: Seq<char>) -> Result<
    Seq<char>,
    CdError,
>
    decreases e.len(),
{
    if (e.len() == 1 && e[0] == '.') || (e.len() >= 2 && e[0] == '.' && e[1] == '/') {
        let rest = if e.len() == 1 {
            Seq::empty()
        } else {
            e.skip(2)
        };
        resolve_spec(base, home, rest)
    } else if (e.len() == 2 && e[0] == '.' && e[1] == '.') || (e.len() >= 3 && e[0] == '.' && e[1]
        == '.' && e[2] == '/') {
        if at_root(base) {
            Err(CdError::NoParent)
        } else {
            let rest = if e.len() == 2 {
                Seq::empty()
            } else {
                e.skip(3)
            };
            resolve_spec(parent_of(base), home, rest)
        }
    } else if e.len() >= 1 && e[0] == '~' {
        let rest = if e.len() >= 2 && e[1] == '/' {
            e.skip(2)
        } else {
            e.skip(1)
        };
        match home {
            Some(h) => if is_abs(h) {
                resolve_spec(h, home, rest)
            } else {
                Err(CdError::NoHome)
            },
            None => Err(CdError::NoHome),
        }
    } else if e.len() == 0 {
        Ok(base)
    } else if e[0] == '/' {
        Ok(e)
    } else {
        Ok(join_path(base, e))
    }
}

/// A slash at `j` with no later slash before `k` is the last slash of the
/// first `k` characters.
proof fn lemma_last_slash_at(p: Seq<char>, j: int, k: int)
    requires
        0 <= j < k <= p.len(),
        p[j] == '/',
        forall|t: int| j < t < k ==> p[t] != '/',
    ensures
        last_slash(p.take(k)) == j,
    decreases k,
{
    let q = p.take(k);
    if j == k - 1 {
        assert(q.last() == '/');
    } else {
        assert(q.last() == p[k - 1]);
        assert(q.drop_last() =~= p.take(k - 1));
        lemma_last_slash_at(p, j, k - 1);
    }
}

/// The last slash, where there is one, is an index into the path.
proof fn lemma_last_slash_bounds(p: Seq<char>)
    ensures
        -1 <= last_slash(p) < p.len(),
    decreases p.len(),
{
    if p.len() > 0 && p.last() != '/' {
        lemma_last_slash_bounds(p.drop_last());
    }
}

/// Stripping trailing slashes keeps the leading character, so an absolute
/// path stays absolute.
proof fn lemma_strip_trailing_abs(p: Seq<char>)
    requires
        is_abs(p),
    ensures
        is_abs(strip_trailing(p)),
        strip_trailing(p)[0] == p[0],
    decreases p.len(),
{
    if p.len() > 1 && p.last() == '/' {
        assert(p.drop_last()[0] == p[0]);
        lemma_strip_trailing_abs(p.drop_last());
    }
}

/// The parent of an absolute path is absolute.
proof fn lemma_parent_abs(p: Seq<char>)
    requires
        is_abs(p),
    ensures
        is_abs(parent_of(p)),
{
    lemma_strip_trailing_abs(p);
    let q = strip_trailing(p);
    lemma_last_slash_bounds(q);
    let j = last_slash(q);
    if j > 0 {
        assert(q.subrange(0, j)[0] == q[0]);
    }
}

/// Chains resolve segment by segment, left to right: for a recognized
/// segment `seg` (one of `.`, `..`, `~`), resolving `seg/` followed by the
/// remainder of the expression equals first resolving `seg` on its own and
/// then resolving the remainder from whatever base that produced, with the
/// first failure winning.  Applied repeatedly, this reduces any prefix chain
/// to a sequence of independent single-segment resolutions.
pub proof fn lemma_resolve_chain(
    base: Seq<char>,
    home: Option<Seq<char>>,
    seg: Seq<char>,
    rest: Seq<char>,
)
    requires
        seg == seq!['.'] || seg == seq!['.', '.'] || seg == seq!['~'],
    ensures
        resolve_spec(base, home, seg + seq!['/'] + rest) == (match resolve_spec(base, home, seg) {
            Ok(b2) => resolve_spec(b2, home, rest),
            Err(e) => Err::<Seq<char>, CdError>(e),
        }),
{
    let e = seg + seq!['/'] + rest;
    assert(resolve_spec(base, home, Seq::<char>::empty()) == Ok::<Seq<char>, CdError>(base));
    if seg == seq!['.'] {
        assert(e[0] == '.');
        assert(e[1] == '/');
        assert(e.skip(2) =~= rest);
    } else if seg == seq!['.', '.'] {
        assert(e[0] == '.');
        assert(e[1] == '.');
        assert(e[2] == '/');
        assert(e.skip(3) =~= rest);
        if !at_root(base) {
            assert(resolve_spec(parent_of(base), home, Seq::<char>::empty()) == Ok::<
                Seq<char>,
                CdError,
            >(parent_of(base)));
            assert(resolve_spec(base, home, seg) == Ok::<Seq<char>, CdError>(parent_of(base)));
        }
    } else {
        assert(e[0] == '~');
        assert(e[1] == '/');
        assert(e.skip(2) =~= rest);
        assert(seg.skip(1) =~= Seq::<char>::empty());
        if home is Some && is_abs(home.unwrap()) {
            let h = home.unwrap();
            assert(resolve_spec(h, home, Seq::<char>::empty()) == Ok::<Seq<char>, CdError>(h));
            assert(resolve_spec(base, home, seg) == Ok::<Seq<char>, CdError>(h));
        }
    }
}

/// The working directory: one absolute path, mutated only by a committing
/// [`Wd::cd`].
pub struct Wd {
    wd: String,
}

impl View for Wd {
    type V = Seq<char>;

    closed spec fn view(&self) -> Seq<char> {
        self.wd@
    }
}

impl Wd {
    /// The one invariant: the stored directory is an absolute path.
    pub open spec fn wf(&self) -> bool {
        is_abs(self@)
    }

    /// Starts the interpreter's directory state from a known absolute path
    /// (normally the process's current directory at startup).
    pub fn new(initial: &str) -> (r: Self)
        requires
            is_abs(initial@),
        ensures
            r@ == initial@,
            r.wf(),
    {
        Wd { wd: initial.to_owned() }
    }

    /// The directory as `pwd` reports it.
    pub fn pwd(&self) -> (r: String)
        ensures
            r@ == self@,
    {
        self.wd.clone()
    }

    /// One `..` step: the parent of the current base, or `None` at the root.
    fn parent_step(base: &str) -> (r: Option<String>)
        requires
            is_abs(base@),
        ensures
            r is None <==> at_root(base@),
            r matches Some(p) ==> p@ == parent_of(base@),
    {
        let n0 = base.unicode_len();
        let mut k: usize = n0;
        assert(base@.take(n0 as int) =~= base@);
        while k > 1 && base.get_char(k - 1) == '/'
            invariant
                1 <= k <= n0,
                n0 == base@.len(),
                is_abs(base@),
                strip_trailing(base@) == strip_trailing(base@.take(k as int)),
            decreases k,
        {
            assert(base@.take(k as int).drop_last() =~= base@.take(k - 1 as int));
            k = k - 1;
        }
        let ghost q = base@.take(k as int);
        assert(strip_trailing(base@) == q);
        if k == 1 {
            None
        } else {
            let mut j: usize = k - 1;
            while j > 0 && base.get_char(j) != '/'
                invariant
                    0 <= j < k <= n0,
                    n0 == base@.len(),
                    is_abs(base@),
                    forall|t: int| j < t < k ==> base@[t] != '/',
                decreases j,
            {
                j = j - 1;
            }
            assert(base@[j as int] == '/');
            proof {
                lemma_last_slash_at(base@, j as int, k as int);
            }
            if j == 0 {
                let root = "/";
                proof {
                    reveal_strlit("/");
                }
                assert(root@ =~= seq!['/']);
                Some(root.to_owned())
            } else {
                let p = base.substring_char(0, j);
                assert(p@ =~= q.subrange(0, j as int));
                Some(p.to_owned())
            }
        }
    }

    /// Glues the final relative segment under the base.
    fn join_under(base: &str, r: &str) -> (res: String)
        requires
            is_abs(base@),
            r@.len() > 0,
            r@[0] != '/',
        ensures
            res@ == join_path(base@, r@),
            is_abs(res@),
    {
        let n = base.unicode_len();
        let mut s = base.to_owned();
        if base.get_char(n - 1) != '/' {
            let sep = "/";
            proof {
                reveal_strlit("/");
            }
            assert(sep@ =~= seq!['/']);
            s.append(sep);
        }
        s.append(r);
        assert(base@.last() != '/' ==> s@ =~= base@ + seq!['/'] + r@);
        assert(s@[0] == base@[0]);
        s
    }

    /// Pure resolution: computes the candidate directory that the path
    /// expression `expr` names, starting from the current directory, without
    /// changing any state.  `home` is the home directory the environment
    /// offers, if any.  The candidate is always absolute; whether it exists
    /// is for the caller to find out before committing through [`Wd::cd`].
    pub fn resolve(&self, expr: &str, home: Option<&str>) -> (r: Result<String, CdError>)
        requires
            self.wf(),
        ensures
            match resolve_spec(self@, spec_home(home), expr@) {
                Ok(p) => r matches Ok(q) && q@ == p && is_abs(q@),
                Err(e0) => r matches Err(e) && e == e0,
            },
    {
        let ghost hv = spec_home(home);
        let n = expr.unicode_len();
        let mut base = self.wd.clone();
        let mut j: usize = 0;
        assert(expr@.skip(0) =~= expr@);
        loop
            invariant
                j <= n,
                n == expr@.len(),
                is_abs(base@),
                hv == spec_home(home),
                resolve_spec(self@, hv, expr@) == resolve_spec(base@, hv, expr@.skip(j as int)),
            decreases n - j,
        {
            let ghost rest = expr@.skip(j as int);
            let rem = n - j;
            assert(forall|t: int| 0 <= t < rest.len() ==> rest[t] == expr@[j + t]);
            if rem >= 1 && expr.get_char(j) == '.' && (rem == 1 || (rem >= 2 && expr.get_char(j + 1)
                == '/')) {
                // `.` or `./…`: the base stays.
                assert(rem >= 2 ==> rest.skip(2) =~= expr@.skip(j + 2));
                assert(rem == 1 ==> expr@.skip(j + 1) =~= Seq::<char>::empty());
                j = if rem == 1 {
                    j + 1
                } else {
                    j + 2
                };
            } else if rem >= 2 && expr.get_char(j) == '.' && expr.get_char(j + 1) == '.' && (rem == 2
                || (rem >= 3 && expr.get_char(j + 2) == '/')) {
                // `..` or `../…`: one step up, unless the base is the root.
                assert(rem >= 3 ==> rest.skip(3) =~= expr@.skip(j + 3));
                assert(rem == 2 ==> expr@.skip(j + 2) =~= Seq::<char>::empty());
                match Self::parent_step(base.as_str()) {
                    None => {
                        assert(resolve_spec(base@, hv, rest) == Err::<Seq<char>, CdError>(
                            CdError::NoParent,
                        ));
                        return Err(CdError::NoParent);
                    },
                    Some(p) => {
                        assert(is_abs(p@)) by {
                            lemma_parent_abs(base@);
                        }
                        base = p;
                        j = if rem == 2 {
                            j + 2
                        } else {
                            j + 3
                        };
                    },
                }
            } else if rem >= 1 && expr.get_char(j) == '~' {
                // `~`, `~/…` or `~…`: the base becomes the home directory.
                assert(rem >= 2 ==> rest.skip(2) =~= expr@.skip(j + 2));
                assert(rest.skip(1) =~= expr@.skip(j + 1));
                match home {
                    None => {
                        return Err(CdError::NoHome);
                    },
                    Some(h) => {
                        if h.unicode_len() == 0 || h.get_char(0) != '/' {
                            return Err(CdError::NoHome);
                        }
                        base = h.to_owned();
                        j = if rem >= 2 && expr.get_char(j + 1) == '/' {
                            j + 2
                        } else {
                            j + 1
                        };
                    },
                }
            } else if rem == 0 {
                // Nothing left: the base reached is the candidate.
                return Ok(base);
            } else if expr.get_char(j) == '/' {
                // An absolute final segment replaces the base.
                let p = expr.substring_char(j, n);
                assert(p@ =~= rest);
                return Ok(p.to_owned());
            } else {
                // A relative final segment hangs under the base.
                let seg = expr.substring_char(j, n);
                assert(seg@ =~= rest);
                assert(resolve_spec(base@, hv, rest) == Ok::<Seq<char>, CdError>(
                    join_path(base@, rest),
                ));
                return Ok(Self::join_under(base.as_str(), seg));
            }
        }
    }

    /// The `cd` decision: commit the resolved candidate when resolution
    /// succeeded and the caller found the candidate to exist
    /// (`target_exists`); otherwise report the failure and leave the
    /// directory exactly as it was.  The caller is expected to obtain the
    /// candidate through [`Wd::resolve`] and answer `target_exists` for it.
    pub fn cd(&mut self, expr: &str, home: Option<&str>, target_exists: bool) -> (r: Result<
        (),
        CdError,
    >)
        requires
            old(self).wf(),
        ensures
            final(self).wf(),
            match resolve_spec(old(self)@, spec_home(home), expr@) {
                Ok(p) => {
                    if target_exists {
                        r is Ok && final(self)@ == p
                    } else {
                        (r matches Err(e) && e == CdError::NotFound) && final(self)@ == old(self)@
                    }
                },
                Err(e0) => (r matches Err(e) && e == e0) && final(self)@ == old(self)@,
            },
    {
        match self.resolve(expr, home) {
            Ok(p) => {
                if target_exists {
                    self.wd = p;
                    Ok(())
                } else {
                    Err(CdError::NotFound)
                }
            },
            Err(e) => Err(e),
        }
    }
}

} // verus!
