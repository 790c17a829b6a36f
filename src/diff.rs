//! Comparison of a workspace tree against the tree that history left, under filter rules.
use vstd::prelude::*;
use crate::model::{opt_str_view, ChangeView, FileChange};
use crate::tree::{copy_string, files_wf, is_ancestor, lookup, under, FileTree, FileView, TreeFile};

verus! {

broadcast use vstd::seq_lib::group_seq_properties;

/// A path rule: `*` stands for any run of characters (slashes too) and `?` for
/// any one character. The first rule that matches a path decides whether it is kept.
pub struct FilterRule {
    pub pattern: String,
    pub keep: bool,
}

pub ghost struct RuleView {
    pub pattern: Seq<char>,
    pub keep: bool,
}

impl View for FilterRule {
    type V = RuleView;

    open spec fn view(&self) -> RuleView {
        RuleView { pattern: self.pattern@, keep: self.keep }
    }
}

pub open spec fn glob(p: Seq<char>, s: Seq<char>) -> bool
    decreases p.len() + s.len(),
{
    if p.len() == 0 {
        s.len() == 0
    } else if p[0] == '*' {
        glob(p.drop_first(), s) || (s.len() > 0 && glob(p, s.drop_first()))
    } else {
        s.len() > 0 && (p[0] == '?' || p[0] == s[0]) && glob(p.drop_first(), s.drop_first())
    }
}

/// The decision of the first rule that matches `path`, if one does.
pub open spec fn first_match(rules: Seq<RuleView>, path: Seq<char>) -> Option<bool>
    decreases rules.len(),
{
    if rules.len() == 0 {
        None
    } else if glob(rules[0].pattern, path) {
        Some(rules[0].keep)
    } else {
        first_match(rules.drop_first(), path)
    }
}

pub open spec fn excluded(path: Seq<char>, rules: Seq<RuleView>) -> bool {
    first_match(rules, path) == Some(false)
}

/// `path` is left out of every comparison: the rules exclude it or a directory that
/// holds it.
pub open spec fn hidden(path: Seq<char>, rules: Seq<RuleView>) -> bool {
    exists|k: int|
        0 <= k <= path.len() && (k == path.len() || path[k] == '/') && #[trigger] excluded(
            path.take(k),
            rules,
        )
}

/// A file that exists on both sides has changed: when both sides know a hash, when
/// the hashes differ; otherwise when its size or modification time differs.
pub open spec fn changed(n: FileView, o: FileView) -> bool {
    if n.hash is Some && o.hash is Some {
        n.hash != o.hash
    } else {
        n.size != o.size || n.modified != o.modified
    }
}

pub open spec fn is_update(f: FileView, old: Seq<FileView>, rules: Seq<RuleView>) -> bool {
    !hidden(f.path, rules) && match lookup(old, f.path) {
        None => true,
        Some(o) => changed(f, o),
    }
}

pub open spec fn is_delete(f: FileView, new: Seq<FileView>, rules: Seq<RuleView>) -> bool {
    !hidden(f.path, rules) && lookup(new, f.path) is None
}

/// The files of `new` that are added or modified, in `new`'s order.
pub open spec fn updates_of(new: Seq<FileView>, old: Seq<FileView>, rules: Seq<RuleView>) -> Seq<
    FileView,
>
    decreases new.len(),
{
    if new.len() == 0 {
        seq![]
    } else {
        let rest = updates_of(new.drop_last(), old, rules);
        if is_update(new.last(), old, rules) {
            rest.push(new.last())
        } else {
            rest
        }
    }
}

/// The paths of `old` that are gone from `new`, in `old`'s order.
pub open spec fn deletes_of(old: Seq<FileView>, new: Seq<FileView>, rules: Seq<RuleView>) -> Seq<
    Seq<char>,
>
    decreases old.len(),
{
    if old.len() == 0 {
        seq![]
    } else {
        let rest = deletes_of(old.drop_last(), new, rules);
        if is_delete(old.last(), new, rules) {
            rest.push(old.last().path)
        } else {
            rest
        }
    }
}

pub open spec fn update_change(f: FileView) -> ChangeView {
    ChangeView::Update { path: f.path, offset: None, size: f.size, modified: f.modified, hash: f.hash }
}

/// The full change list: the removals first, then the additions and modifications.
pub open spec fn changes_of(new: Seq<FileView>, old: Seq<FileView>, rules: Seq<RuleView>) -> Seq<
    ChangeView,
> {
    deletes_of(old, new, rules).map_values(|p: Seq<char>| ChangeView::Delete { path: p })
        + updates_of(new, old, rules).map_values(|f: FileView| update_change(f))
}

/// What a comparison found.
pub struct DiffResult {
    pub updated_files: Vec<TreeFile>,
    pub deleted_files: Vec<String>,
}

impl DiffResult {
    pub open spec fn updated_view(&self) -> Seq<FileView> {
        self.updated_files@.map_values(|f: TreeFile| f@)
    }

    pub open spec fn deleted_view(&self) -> Seq<Seq<char>> {
        self.deleted_files@.map_values(|s: String| s@)
    }

    /// Whether anything changed.
    pub fn has_diff(&self) -> (r: bool)
        ensures
            r == (self.updated_files@.len() > 0 || self.deleted_files@.len() > 0),
    {
        self.updated_files.len() > 0 || self.deleted_files.len() > 0
    }

    /// The change list of a new version: removals first, then additions and
    /// modifications; no update has an offset yet.
    pub fn to_file_changes(&self) -> (r: Vec<FileChange>)
        ensures
            r@.map_values(|c: FileChange| c@) == self.deleted_view().map_values(
                |p: Seq<char>| ChangeView::Delete { path: p },
            ) + self.updated_view().map_values(|f: FileView| update_change(f)),
    {
        let ghost dels = self.deleted_view().map_values(
            |p: Seq<char>| ChangeView::Delete { path: p },
        );
        let ghost ups = self.updated_view().map_values(|f: FileView| update_change(f));
        let mut out: Vec<FileChange> = Vec::new();
        let mut i: usize = 0;
        while i < self.deleted_files.len()
            invariant
                i <= self.deleted_files@.len(),
                dels == self.deleted_view().map_values(
                    |p: Seq<char>| ChangeView::Delete { path: p },
                ),
                out@.map_values(|c: FileChange| c@) == dels.take(i as int),
            decreases self.deleted_files@.len() - i,
        {
            let ghost before = out@.map_values(|c: FileChange| c@);
            out.push(FileChange::DeleteFile { path: self.deleted_files[i].as_str().to_owned() });
            assert(out@.map_values(|c: FileChange| c@) =~= before.push(dels[i as int]));
            assert(dels.take(i + 1) =~= dels.take(i as int).push(dels[i as int]));
            i += 1;
        }
        assert(dels.take(i as int) =~= dels);
        let mut j: usize = 0;
        while j < self.updated_files.len()
            invariant
                j <= self.updated_files@.len(),
                dels.len() == self.deleted_files@.len(),
                ups == self.updated_view().map_values(|f: FileView| update_change(f)),
                out@.map_values(|c: FileChange| c@) == dels + ups.take(j as int),
            decreases self.updated_files@.len() - j,
        {
            let f = &self.updated_files[j];
            let ghost before = out@.map_values(|c: FileChange| c@);
            let hash = match &f.hash {
                Some(h) => Some(h.as_str().to_owned()),
                None => None,
            };
            out.push(
                FileChange::UpdateFile {
                    path: f.path.as_str().to_owned(),
                    offset: None,
                    size: f.size,
                    modified: f.modified,
                    hash,
                },
            );
            assert(opt_str_view(hash) == f@.hash);
            assert(out@.map_values(|c: FileChange| c@) =~= before.push(ups[j as int]));
            assert(ups.take(j + 1) =~= ups.take(j as int).push(ups[j as int]));
            j += 1;
        }
        assert(ups.take(j as int) =~= ups);
        out
    }
}

fn chars_of(s: &String) -> (r: Vec<char>)
    ensures
        r@ == s@,
{
    let st = s.as_str();
    let n = st.unicode_len();
    let mut r: Vec<char> = Vec::new();
    let mut i: usize = 0;
    while i < n
        invariant
            i <= n,
            n == s@.len(),
            st@ == s@,
            r@ == s@.take(i as int),
        decreases n - i,
    {
        r.push(st.get_char(i));
        i += 1;
        assert(r@ =~= s@.take(i as int));
    }
    assert(s@.take(i as int) =~= s@);
    r
}

fn glob_from(p: &Vec<char>, i: usize, s: &Vec<char>, j: usize, end: usize) -> (r: bool)
    requires
        i <= p@.len(),
        j <= end <= s@.len(),
    ensures
        r == glob(p@.skip(i as int), s@.subrange(j as int, end as int)),
    decreases (p@.len() - i) + (end - j),
{
    let ghost ps = p@.skip(i as int);
    let ghost ss = s@.subrange(j as int, end as int);
    if i == p.len() {
        return j == end;
    }
    assert(ps.drop_first() =~= p@.skip(i + 1));
    if j < end {
        assert(ss.drop_first() =~= s@.subrange(j + 1, end as int));
    }
    if p[i] == '*' {
        if glob_from(p, i + 1, s, j, end) {
            return true;
        }
        j < end && glob_from(p, i, s, j + 1, end)
    } else {
        j < end && (p[i] == '?' || p[i] == s[j]) && glob_from(p, i + 1, s, j + 1, end)
    }
}

/// Whether the rules exclude the first `end` characters of `s`.
fn excluded_prefix(s: &Vec<char>, end: usize, rules: &Vec<FilterRule>) -> (r: bool)
    requires
        end <= s@.len(),
    ensures
        r == excluded(s@.take(end as int), rules@.map_values(|x: FilterRule| x@)),
{
    let ghost rv = rules@.map_values(|x: FilterRule| x@);
    let ghost path = s@.take(end as int);
    assert(s@.subrange(0, end as int) =~= path);
    let mut i: usize = 0;
    while i < rules.len()
        invariant
            i <= rules@.len(),
            end <= s@.len(),
            path == s@.take(end as int),
            s@.subrange(0, end as int) == path,
            rv == rules@.map_values(|x: FilterRule| x@),
            first_match(rv, path) == first_match(rv.skip(i as int), path),
        decreases rules@.len() - i,
    {
        assert(rv.skip(i as int).drop_first() =~= rv.skip(i + 1));
        let p = chars_of(&rules[i].pattern);
        assert(p@.skip(0) =~= p@);
        if glob_from(&p, 0, s, 0, end) {
            return !rules[i].keep;
        }
        i += 1;
    }
    false
}

/// Whether the rules leave `path` out of every comparison, itself or through a
/// directory that holds it.
pub fn is_hidden(path: &String, rules: &Vec<FilterRule>) -> (r: bool)
    ensures
        r == hidden(path@, rules@.map_values(|x: FilterRule| x@)),
{
    let ghost rv = rules@.map_values(|x: FilterRule| x@);
    let s = chars_of(path);
    let n = s.len();
    let mut k: usize = 0;
    while k < n
        invariant
            k <= n,
            n == s@.len(),
            s@ == path@,
            rv == rules@.map_values(|x: FilterRule| x@),
            forall|m: int|
                0 <= m < k && s@[m] == '/' ==> !#[trigger] excluded(s@.take(m), rv),
        decreases n - k,
    {
        if s[k] == '/' {
            if excluded_prefix(&s, k, rules) {
                return true;
            }
        }
        k += 1;
    }
    excluded_prefix(&s, n, rules)
}

/// Whether `path` matches the rule pattern `pattern`.
pub fn glob_matches(pattern: &String, path: &String) -> (r: bool)
    ensures
        r == glob(pattern@, path@),
{
    let p = chars_of(pattern);
    let s = chars_of(path);
    assert(p@.skip(0) =~= p@);
    assert(s@.subrange(0, s@.len() as int) =~= s@);
    glob_from(&p, 0, &s, 0, s.len())
}

/// Whether the rules exclude `path` itself.
pub fn is_excluded(path: &String, rules: &Vec<FilterRule>) -> (r: bool)
    ensures
        r == excluded(path@, rules@.map_values(|x: FilterRule| x@)),
{
    let s = chars_of(path);
    assert(s@.take(s@.len() as int) =~= s@);
    excluded_prefix(&s, s.len(), rules)
}

fn is_changed(n: &TreeFile, o: &TreeFile) -> (r: bool)
    ensures
        r == changed(n@, o@),
{
    match (&n.hash, &o.hash) {
        (Some(a), Some(b)) => *a != *b,
        _ => n.size != o.size || n.modified != o.modified,
    }
}

/// Compares the workspace tree `new` against the history tree `old`: every file of
/// `new` that is new or changed, and every path of `old` that is gone, leaving out
/// whatever the rules exclude.
pub fn diff(new: &FileTree, old: &FileTree, rules: &Vec<FilterRule>) -> (r: DiffResult)
    ensures
        r.updated_view() == updates_of(new@, old@, rules@.map_values(|x: FilterRule| x@)),
        r.deleted_view() == deletes_of(old@, new@, rules@.map_values(|x: FilterRule| x@)),
{
    let ghost rv = rules@.map_values(|x: FilterRule| x@);
    let mut updated: Vec<TreeFile> = Vec::new();
    let mut i: usize = 0;
    while i < new.len()
        invariant
            i <= new@.len(),
            rv == rules@.map_values(|x: FilterRule| x@),
            updated@.map_values(|f: TreeFile| f@) == updates_of(new@.take(i as int), old@, rv),
        decreases new@.len() - i,
    {
        let f = new.get(i);
        let ghost before = updated@.map_values(|f: TreeFile| f@);
        assert(new@.take(i + 1).drop_last() =~= new@.take(i as int));
        assert(new@.take(i + 1).last() == new@[i as int]);
        if !is_hidden(&f.path, rules) {
            let take = match old.find(&f.path) {
                None => true,
                Some(o) => is_changed(f, o),
            };
            if take {
                updated.push(f.copy());
                assert(updated@.map_values(|f: TreeFile| f@) =~= before.push(f@));
            }
        }
        i += 1;
    }
    assert(new@.take(i as int) =~= new@);
    let mut deleted: Vec<String> = Vec::new();
    let mut k: usize = 0;
    while k < old.len()
        invariant
            k <= old@.len(),
            rv == rules@.map_values(|x: FilterRule| x@),
            deleted@.map_values(|s: String| s@) == deletes_of(old@.take(k as int), new@, rv),
        decreases old@.len() - k,
    {
        let f = old.get(k);
        let ghost before = deleted@.map_values(|s: String| s@);
        assert(old@.take(k + 1).drop_last() =~= old@.take(k as int));
        assert(old@.take(k + 1).last() == old@[k as int]);
        if !is_hidden(&f.path, rules) && new.find(&f.path).is_none() {
            deleted.push(copy_string(&f.path));
            assert(deleted@.map_values(|s: String| s@) =~= before.push(f@.path));
        }
        k += 1;
    }
    assert(old@.take(k as int) =~= old@);
    DiffResult { updated_files: updated, deleted_files: deleted }
}

pub(crate) proof fn lemma_lookup_own(t: Seq<FileView>, i: int)
    requires
        files_wf(t),
        0 <= i < t.len(),
    ensures
        lookup(t, t[i].path) == Some(t[i]),
    decreases t.len(),
{
    if i > 0 {
        let d = t.drop_first();
        assert(t[0].path != t[i].path);
        assert(d[i - 1] == t[i]);
        assert(files_wf(d)) by {
            assert forall|a: int, b: int|
                0 <= a < d.len() && 0 <= b < d.len() && a != b implies !crate::tree::conflicts(
                #[trigger] d[a].path,
                #[trigger] d[b].path,
            ) by {
                assert(d[a] == t[a + 1] && d[b] == t[b + 1]);
            }
        }
        lemma_lookup_own(d, i - 1);
    }
}

/// Comparing a tree with itself finds no change, whatever the rules.
pub proof fn lemma_diff_self_empty(t: Seq<FileView>, rules: Seq<RuleView>)
    requires
        files_wf(t),
    ensures
        updates_of(t, t, rules).len() == 0,
        deletes_of(t, t, rules).len() == 0,
        changes_of(t, t, rules).len() == 0,
{
    assert forall|k: int| 0 <= k <= t.len() implies updates_of(#[trigger] t.take(k), t, rules).len()
        == 0 && deletes_of(t.take(k), t, rules).len() == 0 by {
        lemma_self_prefix(t, rules, k);
    }
    assert(t.take(t.len() as int) =~= t);
}

proof fn lemma_self_prefix(t: Seq<FileView>, rules: Seq<RuleView>, k: int)
    requires
        files_wf(t),
        0 <= k <= t.len(),
    ensures
        updates_of(t.take(k), t, rules).len() == 0,
        deletes_of(t.take(k), t, rules).len() == 0,
    decreases k,
{
    if k > 0 {
        lemma_self_prefix(t, rules, k - 1);
        assert(t.take(k).drop_last() =~= t.take(k - 1));
        assert(t.take(k).last() == t[k - 1]);
        lemma_lookup_own(t, k - 1);
    }
}

proof fn lemma_under_excluded_hidden(p: Seq<char>, q: Seq<char>, rules: Seq<RuleView>)
    requires
        excluded(q, rules),
        under(p, q),
    ensures
        hidden(p, rules),
{
    if p == q {
        assert(p.take(p.len() as int) =~= p);
        assert(excluded(p.take(p.len() as int), rules));
    } else {
        assert(is_ancestor(q, p));
        assert(p.take(q.len() as int) == q);
        assert(excluded(p.take(q.len() as int), rules));
    }
}

/// No change list holds a path that the rules exclude, nor a path under one.
pub proof fn lemma_excluded_never_changed(
    new: Seq<FileView>,
    old: Seq<FileView>,
    rules: Seq<RuleView>,
    path: Seq<char>,
)
    requires
        excluded(path, rules),
    ensures
        forall|i: int|
            0 <= i < changes_of(new, old, rules).len() ==> !under(
                (#[trigger] changes_of(new, old, rules)[i]).path(),
                path,
            ),
{
    lemma_updates_visible(new, old, rules);
    lemma_deletes_visible(old, new, rules);
    let d = deletes_of(old, new, rules);
    let u = updates_of(new, old, rules);
    let c = changes_of(new, old, rules);
    assert forall|i: int| 0 <= i < c.len() implies !under((#[trigger] c[i]).path(), path) by {
        if under(c[i].path(), path) {
            lemma_under_excluded_hidden(c[i].path(), path, rules);
        }
        if i < d.len() {
            assert(c[i] == ChangeView::Delete { path: d[i] });
        } else {
            assert(c[i] == update_change(u[i - d.len()]));
        }
    }
}

proof fn lemma_updates_visible(new: Seq<FileView>, old: Seq<FileView>, rules: Seq<RuleView>)
    ensures
        forall|i: int|
            0 <= i < updates_of(new, old, rules).len() ==> !hidden(
                (#[trigger] updates_of(new, old, rules)[i]).path,
                rules,
            ),
    decreases new.len(),
{
    if new.len() > 0 {
        lemma_updates_visible(new.drop_last(), old, rules);
    }
}

proof fn lemma_deletes_visible(old: Seq<FileView>, new: Seq<FileView>, rules: Seq<RuleView>)
    ensures
        forall|i: int|
            0 <= i < deletes_of(old, new, rules).len() ==> !hidden(
                #[trigger] deletes_of(old, new, rules)[i],
                rules,
            ),
    decreases old.len(),
{
    if old.len() > 0 {
        lemma_deletes_visible(old.drop_last(), new, rules);
        let rest = deletes_of(old.drop_last(), new, rules);
        let all = deletes_of(old, new, rules);
        assert forall|i: int| 0 <= i < all.len() implies !hidden(#[trigger] all[i], rules) by {
            if i < rest.len() {
                assert(all[i] == rest[i]);
            }
        }
    }
}

} // verus!
