//! Canonical keys: normalized paths with the home directory abbreviated.
use vstd::prelude::*;
use vstd::string::*;
use crate::error::DotError;
use crate::path::{
    initial_state, is_canonical_dir, is_rooted, lemma_normal_state_names, lemma_root_canonical,
    lemma_walk_keeps_root, lemma_walk_render, normal_state,
    normalize_path, normalized, render, rooted_segments,
};

verus! {

/// Whether the normalized path `q` lies under the home directory `h`: it is
/// `h` itself, or continues `h` past a separator with at least one more
/// character.
pub open spec fn under_home(q: Seq<char>, h: Seq<char>) -> bool {
    ||| q == h
    ||| (h == seq!['/'] && is_rooted(q) && q.len() > 1)
    ||| (q.len() > h.len() + 1 && q.take(h.len() as int) == h && q[h.len() as int] == '/')
}

/// What follows the home directory in `q` (the part after its separator).
pub open spec fn home_suffix(q: Seq<char>, h: Seq<char>) -> Seq<char> {
    if q == h {
        Seq::empty()
    } else if h == seq!['/'] {
        q.skip(1)
    } else {
        q.skip(h.len() + 1int)
    }
}

/// `~/` followed by the rest, for a path under home; the path itself otherwise.
pub open spec fn home_rewrite(q: Seq<char>, h: Seq<char>) -> Seq<char> {
    if under_home(q, h) {
        seq!['~', '/'] + home_suffix(q, h)
    } else {
        q
    }
}

/// The canonical key of `p` under working directory `cwd` and home `home`.
pub open spec fn canonical_key(p: Seq<char>, cwd: Seq<char>, home: Seq<char>) -> Seq<char> {
    home_rewrite(normalized(p, cwd), home)
}

/// `rest` appended to the directory `base` in normal form, with one
/// separator between them.
pub open spec fn concat_path(base: Seq<char>, rest: Seq<char>) -> Seq<char> {
    if rest.len() == 0 {
        base
    } else if base == seq!['/'] {
        base + rest
    } else {
        base + seq!['/'] + rest
    }
}

/// Two spellings of one normalized path have one key.
pub proof fn lemma_key_consistent(p1: Seq<char>, p2: Seq<char>, cwd: Seq<char>, home: Seq<char>)
    requires
        normalized(p1, cwd) == normalized(p2, cwd),
    ensures
        canonical_key(p1, cwd, home) == canonical_key(p2, cwd, home),
{
}

/// The key of a path under home starts with `~/`, and putting the home
/// directory back in front of the rest gives the normalized path.
pub proof fn lemma_home_round_trip(p: Seq<char>, cwd: Seq<char>, home: Seq<char>)
    requires
        under_home(normalized(p, cwd), home),
    ensures
        canonical_key(p, cwd, home).take(2) == seq!['~', '/'],
        concat_path(home, canonical_key(p, cwd, home).skip(2)) == normalized(p, cwd),
{
    let q = normalized(p, cwd);
    let k = canonical_key(p, cwd, home);
    let rest = home_suffix(q, home);
    assert(k.take(2) =~= seq!['~', '/']);
    assert(k.skip(2) =~= rest);
    if q == home {
    } else if home == seq!['/'] {
        assert(home + rest =~= q);
    } else {
        assert(home + seq!['/'] + rest =~= q);
    }
}

/// Whether `h` is a prefix of `q`.
fn has_prefix(q: &str, h: &str) -> (r: bool)
    ensures
        r == (h@.len() <= q@.len() && q@.take(h@.len() as int) == h@),
{
    let qn = q.unicode_len();
    let hn = h.unicode_len();
    if hn > qn {
        return false;
    }
    let mut i: usize = 0;
    while i < hn
        invariant
            hn <= qn,
            qn == q@.len(),
            hn == h@.len(),
            i <= hn,
            q@.take(i as int) == h@.take(i as int),
        decreases hn - i,
    {
        if q.get_char(i) != h.get_char(i) {
            assert(q@.take(hn as int)[i as int] != h@[i as int]);
            return false;
        }
        assert(q@.take(i + 1) =~= q@.take(i as int).push(q@[i as int]));
        assert(h@.take(i + 1) =~= h@.take(i as int).push(h@[i as int]));
        i = i + 1;
    }
    assert(h@.take(hn as int) =~= h@);
    true
}

/// `~/` followed by `q[from..]`.
fn tilde_then(q: &str, from: usize) -> (r: String)
    requires
        from <= q@.len(),
    ensures
        r@ == seq!['~', '/'] + q@.skip(from as int),
{
    let mut out = String::new();
    proof {
        reveal_strlit("~/");
    }
    out.append("~/");
    let n = q.unicode_len();
    out.append(q.substring_char(from, n));
    assert(q@.subrange(from as int, n as int) =~= q@.skip(from as int));
    out
}

/// Abbreviates the home directory `h` at the front of `q` to `~`.
fn home_rewrite_exec(q: &str, h: &str) -> (r: String)
    ensures
        r@ == home_rewrite(q@, h@),
{
    let qn = q.unicode_len();
    let hn = h.unicode_len();
    let pre = has_prefix(q, h);
    if pre && qn == hn {
        assert(q@ =~= h@) by {
            assert(q@.take(hn as int) =~= q@);
        }
        return tilde_then(q, qn);
    }
    assert(q@ != h@) by {
        if q@ == h@ {
            assert(q@.take(hn as int) =~= q@);
        }
    }
    let root = hn == 1 && h.get_char(0) == '/';
    assert(root == (h@ == seq!['/'])) by {
        if hn == 1 {
            assert(h@ =~= seq![h@[0]]);
        }
    }
    if root {
        if qn > 1 && q.get_char(0) == '/' {
            return tilde_then(q, 1);
        }
        return q.to_owned();
    }
    if pre && qn > hn + 1 && q.get_char(hn) == '/' {
        return tilde_then(q, hn + 1);
    }
    q.to_owned()
}

/// The working directory and the home directory, both rooted and in normal
/// form.
pub struct PathContext {
    cwd: String,
    home: String,
}

/// Relies on dirs::home_dir: the user's home directory, if the platform
/// gives one. It is read from the environment, so nothing is promised of it.
#[verifier::external_body]
fn home_dir() -> (r: Option<String>) {
    match dirs::home_dir() {
        Some(p) => Some(p.to_string_lossy().into_owned()),
        None => None,
    }
}

/// The normalized form of a rooted path is a directory in normal form.
proof fn lemma_normalized_rooted_canonical(p: Seq<char>, cwd: Seq<char>)
    requires
        is_rooted(p),
    ensures
        is_canonical_dir(normalized(p, cwd)),
{
    let st = normal_state(p, cwd);
    lemma_normal_state_names(p, cwd);
    lemma_walk_keeps_root(p, initial_state(p, cwd));
    assert(st.0);
    lemma_walk_render(st.1);
    let q = normalized(p, cwd);
    assert(q[0] == '/');
    assert(rooted_segments(q) == st.1);
}

/// Whether `s` is a rooted directory path in normal form.
pub fn is_canonical_dir_exec(s: &str) -> (r: bool)
    ensures
        r == is_canonical_dir(s@),
{
    let n = s.unicode_len();
    if n == 0 || s.get_char(0) != '/' {
        return false;
    }
    proof {
        reveal_strlit("/");
        lemma_root_canonical();
        lemma_walk_keeps_root(s@, (true, Seq::empty()));
        assert("/"@ =~= seq!['/']);
    }
    let rendered = normalize_path(s, "/");
    let owned = s.to_owned();
    rendered == owned
}

impl PathContext {
    pub closed spec fn cwd_spec(&self) -> Seq<char> {
        self.cwd@
    }

    pub closed spec fn home_spec(&self) -> Seq<char> {
        self.home@
    }

    pub open spec fn wf(&self) -> bool {
        is_canonical_dir(self.cwd_spec()) && is_canonical_dir(self.home_spec())
    }

    /// Builds a context from the working directory and what the platform
    /// gave as the home directory. Fails with `Config` when the working
    /// directory is not rooted and in normal form, or the home directory is
    /// missing or not rooted; the home directory is kept normalized.
    pub fn resolve(cwd: String, home: Option<String>) -> (r: Result<PathContext, DotError>)
        ensures
            r is Ok <==> (is_canonical_dir(cwd@) && home is Some && is_rooted(home->Some_0@)),
            r is Err ==> r->Err_0 == DotError::Config,
            r is Ok ==> r->Ok_0.wf() && r->Ok_0.cwd_spec() == cwd@ && r->Ok_0.home_spec()
                == normalized(home->Some_0@, cwd@),
    {
        if !is_canonical_dir_exec(cwd.as_str()) {
            return Err(DotError::Config);
        }
        match home {
            None => Err(DotError::Config),
            Some(h) => {
                let hn = h.unicode_len();
                if hn == 0 || h.get_char(0) != '/' {
                    return Err(DotError::Config);
                }
                let home_n = normalize_path(h.as_str(), cwd.as_str());
                proof {
                    lemma_normalized_rooted_canonical(h@, cwd@);
                }
                Ok(PathContext { cwd, home: home_n })
            },
        }
    }

    /// Builds a context from the working directory and the platform's home
    /// directory, as `resolve` does.
    pub fn from_environment(cwd: String) -> (r: Result<PathContext, DotError>)
        ensures
            !is_canonical_dir(cwd@) ==> r == Err::<PathContext, DotError>(DotError::Config),
            r is Err ==> r->Err_0 == DotError::Config,
            r is Ok ==> r->Ok_0.wf() && r->Ok_0.cwd_spec() == cwd@,
    {
        let home = home_dir();
        PathContext::resolve(cwd, home)
    }

    pub fn cwd(&self) -> (r: &str)
        ensures
            r@ == self.cwd_spec(),
    {
        self.cwd.as_str()
    }

    pub fn home(&self) -> (r: &str)
        ensures
            r@ == self.home_spec(),
    {
        self.home.as_str()
    }

    /// The canonical key of `path`: its normalized form, with the home
    /// directory at its front abbreviated to `~`.
    pub fn key(&self, path: &str) -> (r: String)
        requires
            self.wf(),
        ensures
            r@ == canonical_key(path@, self.cwd_spec(), self.home_spec()),
    {
        let q = normalize_path(path, self.cwd.as_str());
        home_rewrite_exec(q.as_str(), self.home.as_str())
    }
}

} // verus!
