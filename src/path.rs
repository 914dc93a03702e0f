//! Lexical path normalization over `/`-separated paths.
use vstd::prelude::*;
use vstd::string::*;

verus! {

/// A walk state: whether the accumulated path is rooted, and its segments.
pub type WalkState = (bool, Seq<Seq<char>>);

/// A segment that names a directory entry: nonempty, no separator, and
/// neither `.` nor `..`.
pub open spec fn is_name(s: Seq<char>) -> bool {
    &&& s.len() > 0
    &&& !s.contains('/')
    &&& s != seq!['.']
    &&& s != seq!['.', '.']
}

pub open spec fn all_names(segs: Seq<Seq<char>>) -> bool {
    forall|i: int| 0 <= i < segs.len() ==> is_name(#[trigger] segs[i])
}

/// The effect of one piece between separators on the walk state: empty
/// pieces and `.` are dropped, `..` removes the last segment if any, and
/// any other piece is appended.
pub open spec fn apply_piece(st: WalkState, piece: Seq<char>) -> WalkState {
    if piece.len() == 0 || piece == seq!['.'] {
        st
    } else if piece == seq!['.', '.'] {
        if st.1.len() > 0 {
            (st.0, st.1.drop_last())
        } else {
            st
        }
    } else {
        (st.0, st.1.push(piece))
    }
}

/// Scans `s` left to right: the state after every completed piece, and the
/// piece still being read.
pub open spec fn scan(s: Seq<char>, st0: WalkState) -> (WalkState, Seq<char>)
    decreases s.len(),
{
    if s.len() == 0 {
        (st0, Seq::empty())
    } else {
        let prev = scan(s.drop_last(), st0);
        if s.last() == '/' {
            (apply_piece(prev.0, prev.1), Seq::empty())
        } else {
            (prev.0, prev.1.push(s.last()))
        }
    }
}

/// The state after walking all of `s` from `st0`.
pub open spec fn walk(s: Seq<char>, st0: WalkState) -> WalkState {
    let r = scan(s, st0);
    apply_piece(r.0, r.1)
}

/// `segs` joined with `/`.
pub open spec fn join(segs: Seq<Seq<char>>) -> Seq<char>
    decreases segs.len(),
{
    if segs.len() == 0 {
        Seq::empty()
    } else if segs.len() == 1 {
        segs[0]
    } else {
        join(segs.drop_last()) + seq!['/'] + segs.last()
    }
}

/// The text of a walk state.
pub open spec fn render(st: WalkState) -> Seq<char> {
    if st.0 {
        seq!['/'] + join(st.1)
    } else {
        join(st.1)
    }
}

pub open spec fn is_rooted(s: Seq<char>) -> bool {
    s.len() > 0 && s[0] == '/'
}

/// The segments of a rooted path, resolved lexically.
pub open spec fn rooted_segments(s: Seq<char>) -> Seq<Seq<char>> {
    walk(s, (true, Seq::empty())).1
}

/// A rooted path already in normal form: what a working directory or a
/// home directory looks like.
pub open spec fn is_canonical_dir(s: Seq<char>) -> bool {
    is_rooted(s) && render((true, rooted_segments(s))) == s
}

/// Whether `p` starts with a `..` piece.
pub open spec fn starts_with_parent(p: Seq<char>) -> bool {
    p.len() >= 2 && p[0] == '.' && p[1] == '.' && (p.len() == 2 || p[2] == '/')
}

/// Where the walk of `p` starts: at the root for a rooted path; at the
/// working directory for a path whose first piece is a name or `.`; empty
/// for an empty path or one that starts with `..`.
pub open spec fn initial_state(p: Seq<char>, cwd: Seq<char>) -> WalkState {
    if p.len() == 0 || starts_with_parent(p) {
        (false, Seq::empty())
    } else if p[0] == '/' {
        (true, Seq::empty())
    } else {
        (true, rooted_segments(cwd))
    }
}

/// The final walk state of `p` under working directory `cwd`.
pub open spec fn normal_state(p: Seq<char>, cwd: Seq<char>) -> WalkState {
    walk(p, initial_state(p, cwd))
}

/// The normalized text of `p` under working directory `cwd`.
pub open spec fn normalized(p: Seq<char>, cwd: Seq<char>) -> Seq<char> {
    render(normal_state(p, cwd))
}

/// The text of each segment.
pub open spec fn seg_views(v: Seq<String>) -> Seq<Seq<char>> {
    v.map_values(|s: String| s@)
}

/// Applies the piece `p[start..end]` to the walk state.
fn apply_piece_exec(rooted: bool, segs: &mut Vec<String>, p: &str, start: usize, end: usize)
    requires
        start <= end <= p@.len(),
    ensures
        (rooted, seg_views(final(segs)@)) == apply_piece(
            (rooted, seg_views(old(segs)@)),
            p@.subrange(start as int, end as int),
        ),
{
    let ghost piece = p@.subrange(start as int, end as int);
    let len = end - start;
    if len == 0 {
        return;
    }
    let c0 = p.get_char(start);
    if len == 1 && c0 == '.' {
        assert(piece =~= seq!['.']);
        return;
    }
    if len == 2 && c0 == '.' && p.get_char(start + 1) == '.' {
        assert(piece =~= seq!['.', '.']);
        if segs.len() > 0 {
            segs.pop();
            assert(seg_views(segs@) =~= seg_views(old(segs)@).drop_last());
        }
        return;
    }
    assert(piece != seq!['.']) by {
        if len == 1 { assert(piece[0] == c0); } else { assert(piece.len() != 1); }
    }
    assert(piece != seq!['.', '.']) by {
        if len == 2 && c0 == '.' { assert(piece[1] == p@[start + 1]); } else if len == 2 { assert(piece[0] == c0); } else { assert(piece.len() != 2); }
    }
    let seg = p.substring_char(start, end).to_owned();
    segs.push(seg);
    assert(seg_views(segs@) =~= seg_views(old(segs)@).push(piece));
}

/// Walks all of `p` from the given state.
fn walk_exec(p: &str, rooted: bool, segs: Vec<String>) -> (r: (bool, Vec<String>))
    ensures
        (r.0, seg_views(r.1@)) == walk(p@, (rooted, seg_views(segs@))),
{
    let ghost st0 = (rooted, seg_views(segs@));
    let mut segs = segs;
    let n = p.unicode_len();
    let mut start: usize = 0;
    let mut i: usize = 0;
    assert(p@.subrange(0, 0) =~= Seq::<char>::empty());
    while i < n
        invariant
            n == p@.len(),
            start <= i <= n,
            scan(p@.subrange(0, i as int), st0) == ((rooted, seg_views(segs@)), p@.subrange(
                start as int,
                i as int,
            )),
        decreases n - i,
    {
        let c = p.get_char(i);
        assert(p@.subrange(0, i + 1).drop_last() =~= p@.subrange(0, i as int));
        if c == '/' {
            apply_piece_exec(rooted, &mut segs, p, start, i);
            start = i + 1;
            assert(p@.subrange(start as int, i + 1) =~= Seq::<char>::empty());
        } else {
            assert(p@.subrange(start as int, i + 1) =~= p@.subrange(start as int, i as int).push(c));
        }
        i = i + 1;
    }
    apply_piece_exec(rooted, &mut segs, p, start, n);
    assert(p@.subrange(0, n as int) =~= p@);
    (rooted, segs)
}

/// The text of a walk state, built.
fn render_exec(rooted: bool, segs: &Vec<String>) -> (r: String)
    ensures
        r@ == render((rooted, seg_views(segs@))),
{
    let ghost sv = seg_views(segs@);
    let mut out = String::new();
    proof {
        reveal_strlit("/");
    }
    if rooted {
        out.append("/");
    }
    let ghost head = out@;
    let mut i: usize = 0;
    assert(sv.take(0) =~= Seq::<Seq<char>>::empty());
    while i < segs.len()
        invariant
            i <= segs.len(),
            sv == seg_views(segs@),
            head == (if rooted { seq!['/'] } else { Seq::<char>::empty() }),
            out@ == head + join(sv.take(i as int)),
        decreases segs.len() - i,
    {
        assert(sv.take(i + 1).drop_last() =~= sv.take(i as int));
        proof {
            reveal_strlit("/");
        }
        if i > 0 {
            out.append("/");
        }
        out.append(segs[i].as_str());
        proof {
            assert(sv[i as int] == segs@[i as int]@);
            assert(sv.take(i + 1).last() == sv[i as int]);
            if i == 0 {
                assert(join(sv.take(1)) == sv.take(1)[0]);
            }
            assert(out@ =~= head + join(sv.take(i + 1)));
        }
        i = i + 1;
    }
    assert(sv.take(segs.len() as int) =~= sv);
    out
}

/// Whether `p` starts with a `..` piece.
fn starts_with_parent_exec(p: &str) -> (r: bool)
    ensures
        r == starts_with_parent(p@),
{
    let n = p.unicode_len();
    n >= 2 && p.get_char(0) == '.' && p.get_char(1) == '.' && (n == 2 || p.get_char(2) == '/')
}

/// Normalizes `path` lexically, without touching the file system.
///
/// A path whose first piece is a name or `.` is read relative to `cwd`;
/// `.` pieces after the first are dropped, and `..` removes the last
/// segment gathered so far. Symbolic links are not followed.
pub fn normalize_path(path: &str, cwd: &str) -> (r: String)
    requires
        is_canonical_dir(cwd@),
    ensures
        r@ == normalized(path@, cwd@),
{
    let n = path.unicode_len();
    let ghost empty = seg_views(Seq::<String>::empty());
    assert(empty =~= Seq::<Seq<char>>::empty());
    let init: (bool, Vec<String>) = if n == 0 || starts_with_parent_exec(path) {
        (false, Vec::new())
    } else if path.get_char(0) == '/' {
        (true, Vec::new())
    } else {
        let r = walk_exec(cwd, true, Vec::new());
        (true, r.1)
    };
    assert((init.0, seg_views(init.1@)) == initial_state(path@, cwd@));
    let (rooted, segs) = walk_exec(path, init.0, init.1);
    render_exec(rooted, &segs)
}

/// Scanning characters that hold no separator only extends the pending piece.
proof fn lemma_scan_append_piece(s: Seq<char>, x: Seq<char>, st0: WalkState)
    requires
        !x.contains('/'),
    ensures
        scan(s + x, st0) == (scan(s, st0).0, scan(s, st0).1 + x),
    decreases x.len(),
{
    if x.len() == 0 {
        assert(s + x =~= s);
        assert(scan(s, st0).1 + x =~= scan(s, st0).1);
    } else {
        let xs = x.drop_last();
        assert(!xs.contains('/')) by {
            if xs.contains('/') {
                let k = choose|k: int| 0 <= k < xs.len() && xs[k] == '/';
                assert(x[k] == '/');
            }
        }
        lemma_scan_append_piece(s, xs, st0);
        assert((s + x).drop_last() =~= s + xs);
        assert(x.last() != '/') by {
            assert(x[x.len() - 1] == x.last());
        }
        assert(scan(s, st0).1 + x =~= (scan(s, st0).1 + xs).push(x.last()));
    }
}

/// The pending piece never holds a separator, and a walk that starts from
/// names only ever gathers names.
proof fn lemma_scan_names(s: Seq<char>, st0: WalkState)
    requires
        all_names(st0.1),
    ensures
        all_names(scan(s, st0).0.1),
        !scan(s, st0).1.contains('/'),
        all_names(walk(s, st0).1),
    decreases s.len(),
{
    if s.len() > 0 {
        lemma_scan_names(s.drop_last(), st0);
        let prev = scan(s.drop_last(), st0);
        if s.last() != '/' {
            let cur = prev.1.push(s.last());
            assert(!cur.contains('/')) by {
                if cur.contains('/') {
                    let k = choose|k: int| 0 <= k < cur.len() && cur[k] == '/';
                    if k < prev.1.len() {
                        assert(prev.1[k] == '/');
                    }
                }
            }
        } else {
            lemma_apply_names(prev.0, prev.1);
        }
    }
    lemma_apply_names(scan(s, st0).0, scan(s, st0).1);
}

proof fn lemma_apply_names(st: WalkState, piece: Seq<char>)
    requires
        all_names(st.1),
        !piece.contains('/'),
    ensures
        all_names(apply_piece(st, piece).1),
{
    let r = apply_piece(st, piece);
    assert forall|i: int| 0 <= i < r.1.len() implies is_name(#[trigger] r.1[i]) by {
        if i < st.1.len() {
            assert(r.1[i] == st.1[i]);
        }
    }
}

/// Scanning the text of a rooted state of names gives those names back.
proof fn lemma_scan_render(segs: Seq<Seq<char>>)
    requires
        all_names(segs),
        segs.len() > 0,
    ensures
        scan(render((true, segs)), (true, Seq::empty())) == ((true, segs.drop_last()), segs.last()),
    decreases segs.len(),
{
    let st0: WalkState = (true, Seq::empty());
    let slash = seq!['/'];
    assert(slash.drop_last() =~= Seq::<char>::empty());
    assert(scan(slash.drop_last(), st0) == (st0, Seq::<char>::empty()));
    assert(slash.last() == '/');
    assert(scan(slash, st0) == (st0, Seq::<char>::empty()));
    assert(is_name(segs[segs.len() - 1]));
    if segs.len() == 1 {
        lemma_scan_append_piece(slash, segs[0], st0);
        assert(segs.drop_last() =~= Seq::<Seq<char>>::empty());
    } else {
        let dl = segs.drop_last();
        assert(all_names(dl)) by {
            assert forall|i: int| 0 <= i < dl.len() implies is_name(#[trigger] dl[i]) by {
                assert(dl[i] == segs[i]);
            }
        }
        lemma_scan_render(dl);
        let r = render((true, dl));
        assert(render((true, segs)) =~= r.push('/') + segs.last());
        assert(r.push('/').drop_last() =~= r);
        assert(is_name(dl[dl.len() - 1]));
        assert(dl.drop_last().push(dl.last()) =~= dl);
        lemma_scan_append_piece(r.push('/'), segs.last(), st0);
    }
}

/// Walking the text of a rooted state of names gives that state back.
pub(crate) proof fn lemma_walk_render(segs: Seq<Seq<char>>)
    requires
        all_names(segs),
    ensures
        walk(render((true, segs)), (true, Seq::empty())) == (true, segs),
{
    if segs.len() == 0 {
        let slash = seq!['/'];
        let st0: WalkState = (true, Seq::empty());
        assert(render((true, segs)) =~= slash);
        assert(slash.drop_last() =~= Seq::<char>::empty());
        assert(scan(slash.drop_last(), st0) == (st0, Seq::<char>::empty()));
        assert(slash.last() == '/');
        assert(segs =~= Seq::<Seq<char>>::empty());
    } else {
        lemma_scan_render(segs);
        assert(is_name(segs[segs.len() - 1]));
        assert(segs.drop_last().push(segs.last()) =~= segs);
    }
}

/// The joined text of names starts with the first name's first character.
proof fn lemma_join_first(segs: Seq<Seq<char>>)
    requires
        all_names(segs),
        segs.len() > 0,
    ensures
        join(segs).len() > 0,
        join(segs)[0] == segs[0][0],
    decreases segs.len(),
{
    assert(is_name(segs[0]));
    if segs.len() > 1 {
        let dl = segs.drop_last();
        assert(all_names(dl)) by {
            assert forall|i: int| 0 <= i < dl.len() implies is_name(#[trigger] dl[i]) by {
                assert(dl[i] == segs[i]);
            }
        }
        lemma_join_first(dl);
    }
}

/// A walk keeps whether the state is rooted.
pub(crate) proof fn lemma_walk_keeps_root(s: Seq<char>, st0: WalkState)
    ensures
        scan(s, st0).0.0 == st0.0,
        walk(s, st0).0 == st0.0,
    decreases s.len(),
{
    if s.len() > 0 {
        lemma_walk_keeps_root(s.drop_last(), st0);
    }
}

/// `/` is a directory in normal form.
pub(crate) proof fn lemma_root_canonical()
    ensures
        is_canonical_dir(seq!['/']),
{
    let e = Seq::<Seq<char>>::empty();
    lemma_walk_render(e);
    assert(render((true, e)) =~= seq!['/']);
}

/// The segments of a rooted path are names.
pub proof fn lemma_rooted_segments_names(s: Seq<char>)
    ensures
        all_names(rooted_segments(s)),
{
    lemma_scan_names(s, (true, Seq::empty()));
}

/// The normalized form of a path is rooted with name segments, or it has no
/// root and name segments (a path that starts with `..`, or is empty).
pub proof fn lemma_normal_state_names(p: Seq<char>, cwd: Seq<char>)
    ensures
        all_names(normal_state(p, cwd).1),
{
    lemma_rooted_segments_names(cwd);
    lemma_scan_names(p, initial_state(p, cwd));
}

/// Normalizing a normalized path changes nothing, for every path whose
/// normalized form is rooted or empty. (A path such as `../x` normalizes to
/// the relative `x`, which a second pass reads under the working directory.)
pub proof fn lemma_normalize_idempotent(p: Seq<char>, cwd: Seq<char>)
    requires
        is_canonical_dir(cwd),
        is_rooted(normalized(p, cwd)) || normalized(p, cwd).len() == 0,
    ensures
        normalized(normalized(p, cwd), cwd) == normalized(p, cwd),
{
    let q = normalized(p, cwd);
    let st = normal_state(p, cwd);
    lemma_normal_state_names(p, cwd);
    if st.0 {
        lemma_walk_render(st.1);
        assert(q[0] == '/');
        assert(initial_state(q, cwd) == (true, Seq::<Seq<char>>::empty()));
    } else {
        if st.1.len() > 0 {
            lemma_join_first(st.1);
            assert(is_name(st.1[0]));
            assert(st.1[0].contains(st.1[0][0]));
            assert(false);
        }
        assert(q =~= Seq::<char>::empty());
        assert(initial_state(q, cwd) == (false, Seq::<Seq<char>>::empty()));
        assert(scan(q, (false, Seq::<Seq<char>>::empty())) == ((false, Seq::<Seq<char>>::empty()), Seq::<char>::empty()));
    }
}

} // verus!
