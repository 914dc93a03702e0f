//! The mapping store: canonical key to relocated path, relative to the
//! workspace root, kept in key order.
use vstd::prelude::*;
use vstd::string::*;
use crate::error::DotError;
use crate::key::{canonical_key, PathContext};
use crate::order::{
    lemma_text_lt_irreflexive, lemma_text_lt_total, lemma_text_lt_transitive, text_lt,
    text_lt_exec,
};
use crate::path::is_rooted;

verus! {

/// A mapping entry as text: the canonical key and the relocated path.
pub type EntryView = (Seq<char>, Seq<char>);

pub open spec fn entry_views(v: Seq<(String, String)>) -> Seq<EntryView> {
    v.map_values(|e: (String, String)| (e.0@, e.1@))
}

/// Keys strictly increase along the sequence (so no key repeats).
pub open spec fn sorted_by_key(s: Seq<EntryView>) -> bool {
    forall|i: int, j: int| 0 <= i < j < s.len() ==> text_lt(#[trigger] s[i].0, #[trigger] s[j].0)
}

pub open spec fn has_key(s: Seq<EntryView>, k: Seq<char>) -> bool {
    exists|i: int| 0 <= i < s.len() && (#[trigger] s[i]).0 == k
}

/// A position that holds key `k`, where there is one.
pub open spec fn key_index(s: Seq<EntryView>, k: Seq<char>) -> int {
    choose|i: int| 0 <= i < s.len() && (#[trigger] s[i]).0 == k
}

/// The entries as a map from key to relocated path.
pub open spec fn entries_map(s: Seq<EntryView>) -> Map<Seq<char>, Seq<char>> {
    Map::new(|k: Seq<char>| has_key(s, k), |k: Seq<char>| s[key_index(s, k)].1)
}

/// The map that results from inserting the pairs one after another; a later
/// pair replaces an earlier one with the same key.
pub open spec fn pairs_map(s: Seq<EntryView>) -> Map<Seq<char>, Seq<char>>
    decreases s.len(),
{
    if s.len() == 0 {
        Map::empty()
    } else {
        pairs_map(s.drop_last()).insert(s.last().0, s.last().1)
    }
}

/// What `add` does to a table: refuse a key that is present, else insert.
pub open spec fn add_outcome(m: Map<Seq<char>, Seq<char>>, k: Seq<char>, d: Seq<char>) -> Result<
    Map<Seq<char>, Seq<char>>,
    DotError,
> {
    if m.contains_key(k) {
        Err(DotError::DuplicateKey)
    } else {
        Ok(m.insert(k, d))
    }
}

/// What `remove` does to a table: refuse a key that is absent, else delete.
pub open spec fn remove_outcome(m: Map<Seq<char>, Seq<char>>, k: Seq<char>) -> Result<
    Map<Seq<char>, Seq<char>>,
    DotError,
> {
    if m.contains_key(k) {
        Ok(m.remove(k))
    } else {
        Err(DotError::NotFound)
    }
}

/// `rel` pushed onto `base` as a path: a rooted `rel` replaces `base`,
/// otherwise one separator goes between them where `base` lacks one.
pub open spec fn join_path(base: Seq<char>, rel: Seq<char>) -> Seq<char> {
    if is_rooted(rel) {
        rel
    } else if base.len() == 0 || base.last() == '/' {
        base + rel
    } else {
        base + seq!['/'] + rel
    }
}

/// Pushes `rel` onto `base` as a path.
pub fn join_path_exec(base: &str, rel: &str) -> (r: String)
    ensures
        r@ == join_path(base@, rel@),
{
    let rn = rel.unicode_len();
    if rn > 0 && rel.get_char(0) == '/' {
        return rel.to_owned();
    }
    let bn = base.unicode_len();
    let mut out = base.to_owned();
    if bn > 0 && base.get_char(bn - 1) != '/' {
        proof {
            reveal_strlit("/");
        }
        out.append("/");
    }
    out.append(rel);
    out
}

proof fn lemma_sorted_unique(s: Seq<EntryView>, i: int, j: int)
    requires
        sorted_by_key(s),
        0 <= i < s.len(),
        0 <= j < s.len(),
        s[i].0 == s[j].0,
    ensures
        i == j,
{
    lemma_text_lt_irreflexive(s[i].0);
    if i < j {
        assert(text_lt(s[i].0, s[j].0));
    } else if j < i {
        assert(text_lt(s[j].0, s[i].0));
    }
}

/// In sorted entries, each entry's key maps to its path.
proof fn lemma_entries_map_at(s: Seq<EntryView>, i: int)
    requires
        sorted_by_key(s),
        0 <= i < s.len(),
    ensures
        entries_map(s).contains_key(s[i].0),
        entries_map(s)[s[i].0] == s[i].1,
{
    let k = s[i].0;
    assert(has_key(s, k));
    let j = key_index(s, k);
    assert(entries_map(s)[k] == s[j].1);
    lemma_sorted_unique(s, i, j);
}

/// Inserting at the place that keeps the order adds one key to the map.
proof fn lemma_insert_sorted(s: Seq<EntryView>, pos: int, e: EntryView)
    requires
        sorted_by_key(s),
        0 <= pos <= s.len(),
        forall|j: int| 0 <= j < pos ==> text_lt(#[trigger] s[j].0, e.0),
        forall|j: int| pos <= j < s.len() ==> text_lt(e.0, #[trigger] s[j].0),
    ensures
        sorted_by_key(s.insert(pos, e)),
        entries_map(s.insert(pos, e)) == entries_map(s).insert(e.0, e.1),
{
    let t = s.insert(pos, e);
    assert(sorted_by_key(t)) by {
        assert forall|i: int, j: int| 0 <= i < j < t.len() implies text_lt(
            #[trigger] t[i].0,
            #[trigger] t[j].0,
        ) by {
            if i < pos && j < pos {
                assert(t[i] == s[i] && t[j] == s[j]);
            } else if i < pos && j == pos {
                assert(t[i] == s[i]);
            } else if i < pos {
                assert(t[i] == s[i] && t[j] == s[j - 1]);
            } else if i == pos {
                assert(t[j] == s[j - 1]);
            } else {
                assert(t[i] == s[i - 1] && t[j] == s[j - 1]);
            }
        }
    }
    let m = entries_map(s).insert(e.0, e.1);
    assert forall|k: Seq<char>| #[trigger] m.contains_key(k) == has_key(t, k) by {
        if has_key(s, k) {
            let i = choose|i: int| 0 <= i < s.len() && (#[trigger] s[i]).0 == k;
            if i < pos {
                assert(t[i] == s[i]);
            } else {
                assert(t[i + 1] == s[i]);
            }
        }
        if has_key(t, k) {
            let i = choose|i: int| 0 <= i < t.len() && (#[trigger] t[i]).0 == k;
            if i < pos {
                assert(t[i] == s[i]);
            } else if i > pos {
                assert(t[i] == s[i - 1]);
            }
        }
        assert(t[pos] == e);
    }
    assert forall|k: Seq<char>| #[trigger] m.contains_key(k) implies entries_map(t)[k] == m[k] by {
        let i = choose|i: int| 0 <= i < t.len() && (#[trigger] t[i]).0 == k;
        lemma_entries_map_at(t, i);
        if i < pos {
            assert(t[i] == s[i]);
            lemma_entries_map_at(s, i);
            assert(k != e.0) by {
                lemma_text_lt_irreflexive(e.0);
            }
        } else if i > pos {
            assert(t[i] == s[i - 1]);
            lemma_entries_map_at(s, i - 1);
            assert(k != e.0) by {
                lemma_text_lt_irreflexive(e.0);
            }
        }
    }
    assert(entries_map(t) =~= m);
}

/// Removing an entry removes its key from the map.
proof fn lemma_remove_sorted(s: Seq<EntryView>, pos: int)
    requires
        sorted_by_key(s),
        0 <= pos < s.len(),
    ensures
        sorted_by_key(s.remove(pos)),
        entries_map(s.remove(pos)) == entries_map(s).remove(s[pos].0),
{
    let t = s.remove(pos);
    let k0 = s[pos].0;
    assert(sorted_by_key(t)) by {
        assert forall|i: int, j: int| 0 <= i < j < t.len() implies text_lt(
            #[trigger] t[i].0,
            #[trigger] t[j].0,
        ) by {
            if j < pos {
                assert(t[i] == s[i] && t[j] == s[j]);
            } else if i < pos {
                assert(t[i] == s[i] && t[j] == s[j + 1]);
            } else {
                assert(t[i] == s[i + 1] && t[j] == s[j + 1]);
            }
        }
    }
    let m = entries_map(s).remove(k0);
    assert forall|k: Seq<char>| #[trigger] m.contains_key(k) == has_key(t, k) by {
        if has_key(t, k) {
            let i = choose|i: int| 0 <= i < t.len() && (#[trigger] t[i]).0 == k;
            if i < pos {
                assert(t[i] == s[i]);
                if k == k0 {
                    lemma_sorted_unique(s, i, pos);
                }
            } else {
                assert(t[i] == s[i + 1]);
                if k == k0 {
                    lemma_sorted_unique(s, i + 1, pos);
                }
            }
            assert(has_key(s, k));
        }
        if m.contains_key(k) {
            let i = choose|i: int| 0 <= i < s.len() && (#[trigger] s[i]).0 == k;
            if i < pos {
                assert(t[i] == s[i]);
            } else {
                assert(i != pos);
                assert(t[i - 1] == s[i]);
            }
        }
    }
    assert forall|k: Seq<char>| #[trigger] m.contains_key(k) implies entries_map(t)[k] == m[k] by {
        let i = choose|i: int| 0 <= i < t.len() && (#[trigger] t[i]).0 == k;
        lemma_entries_map_at(t, i);
        if i < pos {
            assert(t[i] == s[i]);
            lemma_entries_map_at(s, i);
        } else {
            assert(t[i] == s[i + 1]);
            lemma_entries_map_at(s, i + 1);
        }
    }
    assert(entries_map(t) =~= m);
}

/// Replacing the path of an entry changes that key's path in the map.
proof fn lemma_update_sorted(s: Seq<EntryView>, pos: int, v: Seq<char>)
    requires
        sorted_by_key(s),
        0 <= pos < s.len(),
    ensures
        sorted_by_key(s.update(pos, (s[pos].0, v))),
        entries_map(s.update(pos, (s[pos].0, v))) == entries_map(s).insert(s[pos].0, v),
{
    let t = s.update(pos, (s[pos].0, v));
    let m = entries_map(s).insert(s[pos].0, v);
    assert(sorted_by_key(t)) by {
        assert forall|i: int, j: int| 0 <= i < j < t.len() implies text_lt(
            #[trigger] t[i].0,
            #[trigger] t[j].0,
        ) by {
            assert(t[i].0 == s[i].0 && t[j].0 == s[j].0);
        }
    }
    assert forall|k: Seq<char>| #[trigger] m.contains_key(k) == has_key(t, k) by {
        if has_key(t, k) {
            let i = choose|i: int| 0 <= i < t.len() && (#[trigger] t[i]).0 == k;
            assert(s[i].0 == k);
        }
        if has_key(s, k) {
            let i = choose|i: int| 0 <= i < s.len() && (#[trigger] s[i]).0 == k;
            assert(t[i].0 == k);
        }
        assert(t[pos].0 == s[pos].0);
    }
    assert forall|k: Seq<char>| #[trigger] m.contains_key(k) implies entries_map(t)[k] == m[k] by {
        let i = choose|i: int| 0 <= i < t.len() && (#[trigger] t[i]).0 == k;
        lemma_entries_map_at(t, i);
        if i != pos {
            lemma_entries_map_at(s, i);
            if k == s[pos].0 {
                lemma_sorted_unique(s, i, pos);
            }
        }
    }
    assert(entries_map(t) =~= m);
}

/// Rebuilding a table from its own entries, in the order they are kept,
/// gives back the same table. So a persisted table that reads back as the
/// pairs it was written from loads as the table that was saved.
pub proof fn lemma_reload_same_entries(s: Seq<EntryView>)
    requires
        sorted_by_key(s),
    ensures
        pairs_map(s) == entries_map(s),
    decreases s.len(),
{
    if s.len() == 0 {
        assert(entries_map(s) =~= Map::<Seq<char>, Seq<char>>::empty());
    } else {
        let dl = s.drop_last();
        let pos = dl.len() as int;
        assert(sorted_by_key(dl)) by {
            assert forall|i: int, j: int| 0 <= i < j < dl.len() implies text_lt(
                #[trigger] dl[i].0,
                #[trigger] dl[j].0,
            ) by {
                assert(dl[i] == s[i] && dl[j] == s[j]);
            }
        }
        lemma_reload_same_entries(dl);
        assert forall|j: int| 0 <= j < pos implies text_lt(#[trigger] dl[j].0, s.last().0) by {
            assert(dl[j] == s[j]);
        }
        lemma_insert_sorted(dl, pos, s.last());
        assert(dl.insert(pos, s.last()) =~= s);
    }
}

/// Once one `add` of a path succeeds, a second `add` of the same path, with
/// any target, is refused as a duplicate.
pub proof fn lemma_add_then_add(
    m: Map<Seq<char>, Seq<char>>,
    p: Seq<char>,
    cwd: Seq<char>,
    home: Seq<char>,
    d: Seq<char>,
    d2: Seq<char>,
)
    requires
        add_outcome(m, canonical_key(p, cwd, home), d) is Ok,
    ensures
        add_outcome(add_outcome(m, canonical_key(p, cwd, home), d)->Ok_0, canonical_key(p, cwd, home), d2)
            == Err::<Map<Seq<char>, Seq<char>>, DotError>(DotError::DuplicateKey),
{
}

/// Once `remove` of a path succeeds, the table no longer holds the path's
/// key, and a second `remove` is refused as not found.
pub proof fn lemma_remove_then_lookup(
    m: Map<Seq<char>, Seq<char>>,
    p: Seq<char>,
    cwd: Seq<char>,
    home: Seq<char>,
)
    requires
        remove_outcome(m, canonical_key(p, cwd, home)) is Ok,
    ensures
        !remove_outcome(m, canonical_key(p, cwd, home))->Ok_0.contains_key(canonical_key(p, cwd, home)),
        remove_outcome(remove_outcome(m, canonical_key(p, cwd, home))->Ok_0, canonical_key(p, cwd, home))
            == Err::<Map<Seq<char>, Seq<char>>, DotError>(DotError::NotFound),
{
}

#[verifier::external_type_specification]
#[verifier::external_body]
pub struct ExJsonError(serde_json::Error);

/// What serde_json reads from `text` as an object of string pairs, in the
/// order it hands them over; `None` where the text is not such an object.
pub uninterp spec fn json_string_object(text: Seq<char>) -> Option<Seq<EntryView>>;

/// What serde_json writes, pretty-printed, for the object of these pairs.
pub uninterp spec fn pretty_json_object(entries: Seq<EntryView>) -> Seq<char>;

/// Relies on serde_json::from_str: it reads an object of string pairs, or
/// fails on malformed text.
#[verifier::external_body]
fn parse_json_object(text: &str) -> (r: Result<Vec<(String, String)>, serde_json::Error>)
    ensures
        r is Ok <==> json_string_object(text@) is Some,
        r is Ok ==> json_string_object(text@) == Some(entry_views(r->Ok_0@)),
{
    match serde_json::from_str::<std::collections::BTreeMap<String, String>>(text) {
        Ok(m) => Ok(m.into_iter().collect()),
        Err(e) => Err(e),
    }
}

/// Relies on serde_json::to_string_pretty: the object of the given pairs,
/// pretty-printed. It fails only where a `Serialize` impl fails or a map key
/// is not a string; here every key and value is a `String`, so it succeeds.
#[verifier::external_body]
fn write_json_object(entries: &Vec<(String, String)>) -> (r: Result<String, serde_json::Error>)
    ensures
        r is Ok,
        r is Ok ==> r->Ok_0@ == pretty_json_object(entry_views(entries@)),
{
    let m: std::collections::BTreeMap<&String, &String> = entries.iter().map(|e| (&e.0, &e.1)).collect();
    serde_json::to_string_pretty(&m)
}

/// The table of one workspace: canonical key to relocated path.
pub struct FileMappings {
    entries: Vec<(String, String)>,
    workspace: String,
    ctx: PathContext,
}

impl FileMappings {
    /// The entries, in key order.
    pub closed spec fn entries_spec(&self) -> Seq<EntryView> {
        entry_views(self.entries@)
    }

    /// The table as a map.
    pub open spec fn view_map(&self) -> Map<Seq<char>, Seq<char>> {
        entries_map(self.entries_spec())
    }

    pub closed spec fn workspace_spec(&self) -> Seq<char> {
        self.workspace@
    }

    pub closed spec fn ctx_spec(&self) -> PathContext {
        self.ctx
    }

    /// The key under which this table files `path`.
    pub open spec fn key_of(&self, path: Seq<char>) -> Seq<char> {
        canonical_key(path, self.ctx_spec().cwd_spec(), self.ctx_spec().home_spec())
    }

    pub open spec fn wf(&self) -> bool {
        sorted_by_key(self.entries_spec()) && self.ctx_spec().wf()
    }

    /// An empty table for `workspace`.
    pub fn new(workspace: String, ctx: PathContext) -> (r: FileMappings)
        requires
            ctx.wf(),
        ensures
            r.wf(),
            r.entries_spec() == Seq::<EntryView>::empty(),
            r.view_map() == Map::<Seq<char>, Seq<char>>::empty(),
            r.workspace_spec() == workspace@,
            r.ctx_spec() == ctx,
    {
        let r = FileMappings { entries: Vec::new(), workspace, ctx };
        assert(r.entries_spec() =~= Seq::<EntryView>::empty());
        assert(r.view_map() =~= Map::<Seq<char>, Seq<char>>::empty());
        r
    }

    /// The entries, in key order.
    pub fn as_map(&self) -> (r: &Vec<(String, String)>)
        ensures
            entry_views(r@) == self.entries_spec(),
    {
        &self.entries
    }

    pub fn workspace(&self) -> (r: &str)
        ensures
            r@ == self.workspace_spec(),
    {
        self.workspace.as_str()
    }

    /// The first position whose key does not sort before `k`.
    fn lower_bound(&self, k: &str) -> (pos: usize)
        requires
            self.wf(),
        ensures
            pos <= self.entries_spec().len(),
            forall|j: int| 0 <= j < pos ==> text_lt(#[trigger] self.entries_spec()[j].0, k@),
            forall|j: int|
                pos <= j < self.entries_spec().len() ==> !text_lt(
                    #[trigger] self.entries_spec()[j].0,
                    k@,
                ),
            has_key(self.entries_spec(), k@) <==> (pos < self.entries_spec().len()
                && self.entries_spec()[pos as int].0 == k@),
    {
        let ghost s = self.entries_spec();
        let n = self.entries.len();
        let mut i: usize = 0;
        while i < n
            invariant
                n == s.len(),
                s == self.entries_spec(),
                self.wf(),
                i <= n,
                forall|j: int| 0 <= j < i ==> text_lt(#[trigger] s[j].0, k@),
            decreases n - i,
        {
            if !text_lt_exec(self.entries[i].0.as_str(), k) {
                proof {
                    assert(s[i as int].0 == self.entries@[i as int].0@);
                    assert forall|j: int| i <= j < n implies !text_lt(#[trigger] s[j].0, k@) by {
                        if j > i && text_lt(s[j].0, k@) {
                            assert(text_lt(s[i as int].0, s[j].0));
                            lemma_text_lt_transitive(s[i as int].0, s[j].0, k@);
                        }
                    }
                    if has_key(s, k@) {
                        let j = choose|j: int| 0 <= j < s.len() && (#[trigger] s[j]).0 == k@;
                        lemma_text_lt_irreflexive(k@);
                        if j > i {
                            assert(text_lt(s[i as int].0, s[j].0));
                        }
                    }
                }
                return i;
            }
            proof {
                assert(s[i as int].0 == self.entries@[i as int].0@);
            }
            i = i + 1;
        }
        proof {
            if has_key(s, k@) {
                let j = choose|j: int| 0 <= j < s.len() && (#[trigger] s[j]).0 == k@;
                lemma_text_lt_irreflexive(k@);
            }
        }
        n
    }

    /// Whether `src` is managed: its key is in the table.
    pub fn contains(&self, src: &str) -> (r: bool)
        requires
            self.wf(),
        ensures
            r == self.view_map().contains_key(self.key_of(src@)),
    {
        let k = self.ctx.key(src);
        let pos = self.lower_bound(k.as_str());
        pos < self.entries.len() && self.entries[pos].0 == k
    }

    /// Files `src` under its key with relocated path `dst`; refuses a key
    /// that is already present.
    pub fn add(&mut self, src: &str, dst: &str) -> (r: Result<(), DotError>)
        requires
            old(self).wf(),
        ensures
            final(self).wf(),
            final(self).ctx_spec() == old(self).ctx_spec(),
            final(self).workspace_spec() == old(self).workspace_spec(),
            match add_outcome(old(self).view_map(), old(self).key_of(src@), dst@) {
                Ok(m) => r is Ok && final(self).view_map() == m,
                Err(e) => r == Err::<(), DotError>(e) && final(self).view_map() == old(self).view_map(),
            },
    {
        let k = self.ctx.key(src);
        let pos = self.lower_bound(k.as_str());
        if pos < self.entries.len() && self.entries[pos].0 == k {
            return Err(DotError::DuplicateKey);
        }
        let ghost s = self.entries_spec();
        proof {
            assert forall|j: int| pos <= j < s.len() implies text_lt(k@, #[trigger] s[j].0) by {
                if j == pos {
                    lemma_text_lt_total(k@, s[j].0);
                } else {
                    lemma_text_lt_total(k@, s[pos as int].0);
                    assert(text_lt(s[pos as int].0, s[j].0));
                    lemma_text_lt_transitive(k@, s[pos as int].0, s[j].0);
                }
            }
            lemma_insert_sorted(s, pos as int, (k@, dst@));
        }
        self.entries.insert(pos, (k, dst.to_owned()));
        assert(self.entries_spec() =~= s.insert(pos as int, (self.entries@[pos as int].0@, dst@)));
        Ok(())
    }

    /// Inserts `(k, v)`, replacing the path of a key that is present.
    fn put(&mut self, k: String, v: String)
        requires
            old(self).wf(),
        ensures
            final(self).wf(),
            final(self).ctx_spec() == old(self).ctx_spec(),
            final(self).workspace_spec() == old(self).workspace_spec(),
            final(self).view_map() == old(self).view_map().insert(k@, v@),
    {
        let pos = self.lower_bound(k.as_str());
        let ghost s = self.entries_spec();
        if pos < self.entries.len() && self.entries[pos].0 == k {
            proof {
                lemma_update_sorted(s, pos as int, v@);
            }
            self.entries.set(pos, (k, v));
            assert(self.entries_spec() =~= s.update(pos as int, (s[pos as int].0, v@)));
        } else {
            proof {
                assert forall|j: int| pos <= j < s.len() implies text_lt(k@, #[trigger] s[j].0) by {
                    if j == pos {
                        lemma_text_lt_total(k@, s[j].0);
                    } else {
                        lemma_text_lt_total(k@, s[pos as int].0);
                        assert(text_lt(s[pos as int].0, s[j].0));
                        lemma_text_lt_transitive(k@, s[pos as int].0, s[j].0);
                    }
                }
                lemma_insert_sorted(s, pos as int, (k@, v@));
            }
            self.entries.insert(pos, (k, v));
            assert(self.entries_spec() =~= s.insert(pos as int, (k@, v@)));
        }
    }

    /// Removes the entry of `src`; refuses a key that is absent.
    pub fn remove(&mut self, src: &str) -> (r: Result<(), DotError>)
        requires
            old(self).wf(),
        ensures
            final(self).wf(),
            final(self).ctx_spec() == old(self).ctx_spec(),
            final(self).workspace_spec() == old(self).workspace_spec(),
            match remove_outcome(old(self).view_map(), old(self).key_of(src@)) {
                Ok(m) => r is Ok && final(self).view_map() == m,
                Err(e) => r == Err::<(), DotError>(e) && final(self).view_map() == old(self).view_map(),
            },
    {
        let k = self.ctx.key(src);
        let pos = self.lower_bound(k.as_str());
        if pos < self.entries.len() && self.entries[pos].0 == k {
            let ghost s = self.entries_spec();
            proof {
                lemma_remove_sorted(s, pos as int);
            }
            self.entries.remove(pos);
            assert(self.entries_spec() =~= s.remove(pos as int));
            Ok(())
        } else {
            Err(DotError::NotFound)
        }
    }

    /// The absolute path that `src` was relocated to: its entry pushed onto
    /// the workspace root; `NotFound` where `src` is not managed.
    pub fn get(&self, src: &str) -> (r: Result<String, DotError>)
        requires
            self.wf(),
        ensures
            self.view_map().contains_key(self.key_of(src@)) <==> r is Ok,
            r is Ok ==> r->Ok_0@ == join_path(
                self.workspace_spec(),
                self.view_map()[self.key_of(src@)],
            ),
            r is Err ==> r->Err_0 == DotError::NotFound,
    {
        let k = self.ctx.key(src);
        let pos = self.lower_bound(k.as_str());
        if pos < self.entries.len() && self.entries[pos].0 == k {
            proof {
                lemma_entries_map_at(self.entries_spec(), pos as int);
            }
            Ok(join_path_exec(self.workspace.as_str(), self.entries[pos].1.as_str()))
        } else {
            Err(DotError::NotFound)
        }
    }

    /// A table for `workspace` read from the persisted text; `Parse` where
    /// the text is not an object of string pairs.
    pub fn load_entries(workspace: String, text: &str, ctx: PathContext) -> (r: Result<
        FileMappings,
        DotError,
    >)
        requires
            ctx.wf(),
        ensures
            r is Ok <==> json_string_object(text@) is Some,
            r is Err ==> r->Err_0 == DotError::Parse,
            r is Ok ==> r->Ok_0.wf() && r->Ok_0.view_map() == pairs_map(
                json_string_object(text@)->Some_0,
            ) && r->Ok_0.workspace_spec() == workspace@ && r->Ok_0.ctx_spec() == ctx,
    {
        match parse_json_object(text) {
            Err(_) => Err(DotError::Parse),
            Ok(pairs) => Ok(FileMappings::from_pairs(workspace, pairs, ctx)),
        }
    }

    /// A table for `workspace` holding the given pairs; a later pair
    /// replaces an earlier one with the same key.
    pub fn from_pairs(workspace: String, pairs: Vec<(String, String)>, ctx: PathContext) -> (r:
        FileMappings)
        requires
            ctx.wf(),
        ensures
            r.wf(),
            r.view_map() == pairs_map(entry_views(pairs@)),
            r.workspace_spec() == workspace@,
            r.ctx_spec() == ctx,
    {
        let ghost pv = entry_views(pairs@);
        let mut fm = FileMappings::new(workspace, ctx);
        let n = pairs.len();
        let mut i: usize = 0;
        while i < n
            invariant
                n == pv.len(),
                pv == entry_views(pairs@),
                i <= n,
                fm.wf(),
                fm.ctx_spec() == ctx,
                fm.workspace_spec() == workspace@,
                fm.view_map() == pairs_map(pv.take(i as int)),
            decreases n - i,
        {
            let k = pairs[i].0.clone();
            let v = pairs[i].1.clone();
            proof {
                assert(pv.take(i + 1).drop_last() =~= pv.take(i as int));
                assert(pv[i as int] == (k@, v@));
            }
            fm.put(k, v);
            i = i + 1;
        }
        assert(pv.take(n as int) =~= pv);
        fm
    }

    /// The persisted text of the table: its entries as a pretty-printed
    /// object, in key order. It always succeeds.
    pub fn save_entries(&self) -> (r: Result<String, DotError>)
        ensures
            r is Ok,
            r is Ok ==> r->Ok_0@ == pretty_json_object(self.entries_spec()),
            r is Err ==> r->Err_0 == DotError::Io,
    {
        match write_json_object(&self.entries) {
            Ok(text) => Ok(text),
            Err(_) => Err(DotError::Io),
        }
    }
}

} // verus!
