//! A file tree held as the list of its files, each with its full slash-separated path.
//! Directories are implicit: a directory exists while some file lies under it. The same
//! type describes the live workspace (files backed by the disk) and the tree rebuilt
//! from version history (files backed by a container).
use vstd::prelude::*;
use crate::model::{opt_str_view, ChangeView, FileChange, MetaView, VersionMeta, VersionMetaGroup};

verus! {

broadcast use vstd::seq_lib::group_seq_properties;

/// Where a file's bytes can be read from.
#[derive(Debug)]
pub enum Backing {
    /// The workspace file at the node's own path.
    Disk,
    /// A container file, at a payload offset; no offset when the bytes were not kept.
    Archive { archive: String, offset: Option<u64> },
}

pub ghost enum BackingView {
    Disk,
    Archive { archive: Seq<char>, offset: Option<u64> },
}

impl View for Backing {
    type V = BackingView;

    open spec fn view(&self) -> BackingView {
        match self {
            Backing::Disk => BackingView::Disk,
            Backing::Archive { archive, offset } => BackingView::Archive {
                archive: archive@,
                offset: *offset,
            },
        }
    }
}

/// One file of a tree.
#[derive(Debug)]
pub struct TreeFile {
    pub path: String,
    pub size: u64,
    pub modified: u64,
    pub hash: Option<String>,
    pub backing: Backing,
}

pub ghost struct FileView {
    pub path: Seq<char>,
    pub size: u64,
    pub modified: u64,
    pub hash: Option<Seq<char>>,
    pub backing: BackingView,
}

impl View for TreeFile {
    type V = FileView;

    open spec fn view(&self) -> FileView {
        FileView {
            path: self.path@,
            size: self.size,
            modified: self.modified,
            hash: opt_str_view(self.hash),
            backing: self.backing@,
        }
    }
}

/// Where to read a file's bytes.
#[derive(Debug, PartialEq, Eq)]
pub enum ContentSource {
    /// The workspace file at this relative path.
    Disk { path: String },
    /// This many bytes at this payload offset of this container file.
    Archive { archive: String, offset: u64, length: u64 },
}

#[derive(Clone, Copy, Debug, PartialEq, Eq, Structural)]
pub enum TreeError {
    /// The file's bytes were not kept in any container.
    ContentUnavailable,
}

pub(crate) fn copy_string(s: &String) -> (r: String)
    ensures
        r@ == s@,
{
    s.as_str().to_owned()
}

fn copy_opt_string(o: &Option<String>) -> (r: Option<String>)
    ensures
        opt_str_view(r) == opt_str_view(*o),
{
    match o {
        Some(s) => Some(copy_string(s)),
        None => None,
    }
}

impl Backing {
    pub fn copy(&self) -> (r: Backing)
        ensures
            r@ == self@,
    {
        match self {
            Backing::Disk => Backing::Disk,
            Backing::Archive { archive, offset } => Backing::Archive {
                archive: copy_string(archive),
                offset: *offset,
            },
        }
    }
}

impl TreeFile {
    pub fn copy(&self) -> (r: TreeFile)
        ensures
            r@ == self@,
    {
        TreeFile {
            path: copy_string(&self.path),
            size: self.size,
            modified: self.modified,
            hash: copy_opt_string(&self.hash),
            backing: self.backing.copy(),
        }
    }

    /// Where this file's bytes are; fails for a file whose bytes were not kept.
    pub fn source(&self) -> (r: Result<ContentSource, TreeError>)
        ensures
            match self.backing@ {
                BackingView::Disk => r matches Ok(ContentSource::Disk { path }) && path@
                    == self.path@,
                BackingView::Archive { archive, offset: Some(o) } => r matches Ok(
                    ContentSource::Archive { archive: a, offset, length },
                ) && a@ == archive && offset == o && length == self.size,
                BackingView::Archive { offset: None, .. } => r == Err::<
                    ContentSource,
                    TreeError,
                >(TreeError::ContentUnavailable),
            },
    {
        match &self.backing {
            Backing::Disk => Ok(ContentSource::Disk { path: copy_string(&self.path) }),
            Backing::Archive { archive, offset } => match offset {
                Some(o) => Ok(
                    ContentSource::Archive { archive: copy_string(archive), offset: *o, length: self.size },
                ),
                None => Err(TreeError::ContentUnavailable),
            },
        }
    }
}

/// `q` names a directory that holds `p`.
pub open spec fn is_ancestor(q: Seq<char>, p: Seq<char>) -> bool {
    &&& q.len() < p.len()
    &&& p.take(q.len() as int) == q
    &&& p[q.len() as int] == '/'
}

/// Two paths that cannot both name files of one tree.
pub open spec fn conflicts(a: Seq<char>, b: Seq<char>) -> bool {
    a == b || is_ancestor(a, b) || is_ancestor(b, a)
}

/// `p` is `root` itself or lies under it.
pub open spec fn under(p: Seq<char>, root: Seq<char>) -> bool {
    p == root || is_ancestor(root, p)
}

pub open spec fn files_wf(t: Seq<FileView>) -> bool {
    forall|i: int, j: int|
        0 <= i < t.len() && 0 <= j < t.len() && i != j ==> !conflicts(
            #[trigger] t[i].path,
            #[trigger] t[j].path,
        )
}

pub open spec fn keep_clear_of(p: Seq<char>) -> spec_fn(FileView) -> bool {
    |g: FileView| !conflicts(g.path, p)
}

pub open spec fn keep_outside(p: Seq<char>) -> spec_fn(FileView) -> bool {
    |g: FileView| !under(g.path, p)
}

/// The files after `f` is stored: whatever stood at its path, above it or below it
/// is gone, and `f` comes last.
pub open spec fn insert_spec(t: Seq<FileView>, f: FileView) -> Seq<FileView> {
    t.filter(keep_clear_of(f.path)).push(f)
}

/// The files after removing `p` and everything under it.
pub open spec fn remove_spec(t: Seq<FileView>, p: Seq<char>) -> Seq<FileView> {
    t.filter(keep_outside(p))
}

/// The file at `p`, if any.
pub open spec fn lookup(t: Seq<FileView>, p: Seq<char>) -> Option<FileView>
    decreases t.len(),
{
    if t.len() == 0 {
        None
    } else if t[0].path == p {
        Some(t[0])
    } else {
        lookup(t.drop_first(), p)
    }
}

pub open spec fn apply_change(t: Seq<FileView>, c: ChangeView, archive: Seq<char>) -> Seq<
    FileView,
> {
    match c {
        ChangeView::Update { path, offset, size, modified, hash } => insert_spec(
            t,
            FileView {
                path,
                size,
                modified,
                hash,
                backing: BackingView::Archive { archive, offset },
            },
        ),
        ChangeView::Delete { path } => remove_spec(t, path),
    }
}

/// The tree after replaying `cs` in order.
pub open spec fn apply_changes(t: Seq<FileView>, cs: Seq<ChangeView>, archive: Seq<char>) -> Seq<
    FileView,
>
    decreases cs.len(),
{
    if cs.len() == 0 {
        t
    } else {
        apply_change(apply_changes(t, cs.drop_last(), archive), cs.last(), archive)
    }
}

/// The tree after replaying every version of a group in order.
pub open spec fn apply_metas(t: Seq<FileView>, ms: Seq<MetaView>, archive: Seq<char>) -> Seq<
    FileView,
>
    decreases ms.len(),
{
    if ms.len() == 0 {
        t
    } else {
        apply_changes(apply_metas(t, ms.drop_last(), archive), ms.last().changes, archive)
    }
}

/// A version group together with the name of the container that holds it.
pub struct LoadedVersion {
    pub archive: String,
    pub group: VersionMetaGroup,
}

pub ghost struct LoadedView {
    pub archive: Seq<char>,
    pub group: Seq<MetaView>,
}

impl View for LoadedVersion {
    type V = LoadedView;

    open spec fn view(&self) -> LoadedView {
        LoadedView { archive: self.archive@, group: self.group@ }
    }
}

/// The tree that the whole history builds, oldest entry first, from an empty tree.
pub open spec fn replay_spec(h: Seq<LoadedView>) -> Seq<FileView>
    decreases h.len(),
{
    if h.len() == 0 {
        seq![]
    } else {
        apply_metas(replay_spec(h.drop_last()), h.last().group, h.last().archive)
    }
}

pub(crate) proof fn lemma_filter_wf(t: Seq<FileView>, pred: spec_fn(FileView) -> bool)
    requires
        files_wf(t),
    ensures
        files_wf(t.filter(pred)),
    decreases t.len(),
{
    reveal(Seq::filter);
    if t.len() > 0 {
        let d = t.drop_last();
        assert(files_wf(d));
        lemma_filter_wf(d, pred);
        let fd = d.filter(pred);
        if pred(t.last()) {
            let r = fd.push(t.last());
            assert forall|i: int| 0 <= i < fd.len() implies !conflicts(
                fd[i].path,
                t.last().path,
            ) && !conflicts(t.last().path, fd[i].path) by {
                assert(fd.contains(fd[i]));
                d.lemma_filter_contains_rev(pred, fd[i]);
                assert(d.contains(fd[i]));
                let j = choose|j: int| 0 <= j < d.len() && d[j] == fd[i];
                assert(t[j] == fd[i]);
                assert(t[t.len() - 1] == t.last());
            }
            assert forall|i: int, j: int|
                0 <= i < r.len() && 0 <= j < r.len() && i != j implies !conflicts(
                #[trigger] r[i].path,
                #[trigger] r[j].path,
            ) by {
                if i < fd.len() && j < fd.len() {
                    assert(r[i] == fd[i] && r[j] == fd[j]);
                }
            }
        }
    }
}

proof fn lemma_filter_clear(t: Seq<FileView>, p: Seq<char>)
    ensures
        forall|i: int|
            0 <= i < t.filter(keep_clear_of(p)).len() ==> !conflicts(
                #[trigger] t.filter(keep_clear_of(p))[i].path,
                p,
            ),
{
    assert forall|i: int| 0 <= i < t.filter(keep_clear_of(p)).len() implies !conflicts(
        #[trigger] t.filter(keep_clear_of(p))[i].path,
        p,
    ) by {
        t.lemma_filter_pred(keep_clear_of(p), i);
    }
}

pub(crate) proof fn lemma_insert_keeps_wf(t: Seq<FileView>, f: FileView)
    requires
        files_wf(t),
    ensures
        files_wf(insert_spec(t, f)),
{
    let fd = t.filter(keep_clear_of(f.path));
    lemma_filter_wf(t, keep_clear_of(f.path));
    lemma_filter_clear(t, f.path);
    let r = fd.push(f);
    assert forall|i: int, j: int|
        0 <= i < r.len() && 0 <= j < r.len() && i != j implies !conflicts(
        #[trigger] r[i].path,
        #[trigger] r[j].path,
    ) by {
        if i < fd.len() && j < fd.len() {
            assert(r[i] == fd[i] && r[j] == fd[j]);
        } else if i < fd.len() {
            assert(!conflicts(fd[i].path, f.path));
        } else {
            assert(!conflicts(fd[j].path, f.path));
        }
    }
}

/// A file tree whose paths never name one file twice, nor a file inside a file.
pub struct FileTree {
    files: Vec<TreeFile>,
}

impl View for FileTree {
    type V = Seq<FileView>;

    closed spec fn view(&self) -> Seq<FileView> {
        self.files@.map_values(|f: TreeFile| f@)
    }
}

fn chars_equal_prefix(q: &str, p: &str, n: usize) -> (r: bool)
    requires
        n <= q@.len(),
        n <= p@.len(),
    ensures
        r == (p@.take(n as int) == q@.take(n as int)),
{
    let mut k: usize = 0;
    while k < n
        invariant
            k <= n <= q@.len(),
            n <= p@.len(),
            forall|m: int| 0 <= m < k ==> p@[m] == q@[m],
        decreases n - k,
    {
        if q.get_char(k) != p.get_char(k) {
            assert(p@.take(n as int)[k as int] != q@.take(n as int)[k as int]);
            return false;
        }
        k += 1;
    }
    assert(p@.take(n as int) =~= q@.take(n as int));
    true
}

/// Whether `q` names a directory that holds `p`.
pub fn is_ancestor_path(q: &String, p: &String) -> (r: bool)
    ensures
        r == is_ancestor(q@, p@),
{
    let qs = q.as_str();
    let ps = p.as_str();
    let ql = qs.unicode_len();
    let pl = ps.unicode_len();
    if ql >= pl {
        return false;
    }
    let same = chars_equal_prefix(qs, ps, ql);
    assert(q@.take(ql as int) =~= q@);
    same && ps.get_char(ql) == '/'
}

fn conflicts_path(a: &String, b: &String) -> (r: bool)
    ensures
        r == conflicts(a@, b@),
{
    *a == *b || is_ancestor_path(a, b) || is_ancestor_path(b, a)
}

fn under_path(p: &String, root: &String) -> (r: bool)
    ensures
        r == under(p@, root@),
{
    *p == *root || is_ancestor_path(root, p)
}

impl FileTree {
    pub closed spec fn wf(&self) -> bool {
        files_wf(self@)
    }

    /// An empty tree.
    pub fn new() -> (r: FileTree)
        ensures
            r@ == Seq::<FileView>::empty(),
            r.wf(),
    {
        let r = FileTree { files: Vec::new() };
        assert(r@ =~= Seq::<FileView>::empty());
        r
    }

    pub fn len(&self) -> (r: usize)
        ensures
            r == self@.len(),
    {
        self.files.len()
    }

    /// The file at position `i` of the tree's order.
    pub fn get(&self, i: usize) -> (r: &TreeFile)
        requires
            i < self@.len(),
        ensures
            r@ == self@[i as int],
    {
        &self.files[i]
    }

    /// The file at `path`, if any.
    pub fn find(&self, path: &String) -> (r: Option<&TreeFile>)
        ensures
            match lookup(self@, path@) {
                Some(f) => r matches Some(g) && g@ == f,
                None => r is None,
            },
    {
        let mut i: usize = 0;
        while i < self.files.len()
            invariant
                i <= self@.len(),
                self@.len() == self.files@.len(),
                lookup(self@, path@) == lookup(self@.skip(i as int), path@),
            decreases self@.len() - i,
        {
            assert(self@.skip(i as int).drop_first() =~= self@.skip(i + 1));
            if self.files[i].path == *path {
                return Some(&self.files[i]);
            }
            i += 1;
        }
        None
    }

    /// Keeps only the files that `keep` accepts.
    fn retain_clear(&mut self, p: &String, outside_only: bool)
        requires
            old(self).wf(),
        ensures
            final(self).wf(),
            outside_only ==> final(self)@ == old(self)@.filter(keep_outside(p@)),
            !outside_only ==> final(self)@ == old(self)@.filter(keep_clear_of(p@)),
    {
        broadcast use Seq::lemma_filter_push;

        let ghost pred = if outside_only {
            keep_outside(p@)
        } else {
            keep_clear_of(p@)
        };
        let ghost orig = self@;
        let mut kept: Vec<TreeFile> = Vec::new();
        let mut i: usize = 0;
        while i < self.files.len()
            invariant
                i <= self.files@.len(),
                self@ == orig,
                kept@.map_values(|f: TreeFile| f@) == orig.take(i as int).filter(pred),
                pred == if outside_only {
                    keep_outside(p@)
                } else {
                    keep_clear_of(p@)
                },
            decreases self.files@.len() - i,
        {
            let f = &self.files[i];
            let keep = if outside_only {
                !under_path(&f.path, p)
            } else {
                !conflicts_path(&f.path, p)
            };
            let ghost before = kept@.map_values(|f: TreeFile| f@);
            assert(orig.take(i + 1) =~= orig.take(i as int).push(orig[i as int]));
            assert(orig[i as int] == f@);
            assert(pred(orig[i as int]) == keep);
            proof {
                orig.take(i as int).lemma_filter_push(orig[i as int], pred);
            }
            if keep {
                kept.push(f.copy());
                assert(kept@.map_values(|f: TreeFile| f@) =~= before.push(orig[i as int]));
            }
            i += 1;
        }
        assert(orig.take(i as int) =~= orig);
        self.files = kept;
        proof {
            lemma_filter_wf(orig, pred);
        }
    }

    /// Stores `f`, replacing the file at its path and any file that stood above or below it.
    pub fn insert_file(&mut self, f: TreeFile)
        requires
            old(self).wf(),
        ensures
            final(self).wf(),
            final(self)@ == insert_spec(old(self)@, f@),
    {
        self.retain_clear(&f.path, false);
        let ghost mid = self@;
        self.files.push(f);
        assert(self@ =~= mid.push(f@));
        proof {
            lemma_insert_keeps_wf(old(self)@, f@);
        }
    }

    /// Removes the file at `path` or, for a directory, everything under it; nothing
    /// happens where there is neither.
    pub fn remove_path(&mut self, path: &String)
        requires
            old(self).wf(),
        ensures
            final(self).wf(),
            final(self)@ == remove_spec(old(self)@, path@),
    {
        self.retain_clear(path, true);
    }

    /// Applies one change recorded in the container `archive`.
    pub fn replay_change(&mut self, c: &FileChange, archive: &String)
        requires
            old(self).wf(),
        ensures
            final(self).wf(),
            final(self)@ == apply_change(old(self)@, c@, archive@),
    {
        match c {
            FileChange::UpdateFile { path, offset, size, modified, hash } => {
                let f = TreeFile {
                    path: copy_string(path),
                    size: *size,
                    modified: *modified,
                    hash: copy_opt_string(hash),
                    backing: Backing::Archive { archive: copy_string(archive), offset: *offset },
                };
                self.insert_file(f);
            },
            FileChange::DeleteFile { path } => {
                self.remove_path(path);
            },
        }
    }

    /// Applies the changes of one version, in order.
    pub fn replay_operations(&mut self, meta: &VersionMeta, archive: &String)
        requires
            old(self).wf(),
        ensures
            final(self).wf(),
            final(self)@ == apply_changes(old(self)@, meta@.changes, archive@),
    {
        let ghost cs = meta@.changes;
        let mut i: usize = 0;
        while i < meta.changes.len()
            invariant
                i <= meta.changes@.len(),
                cs == meta.changes@.map_values(|c: FileChange| c@),
                self.wf(),
                self@ == apply_changes(old(self)@, cs.take(i as int), archive@),
            decreases meta.changes@.len() - i,
        {
            self.replay_change(&meta.changes[i], archive);
            assert(cs.take(i + 1).drop_last() =~= cs.take(i as int));
            i += 1;
        }
        assert(cs.take(i as int) =~= cs);
    }

    /// Applies every version of a group, in order.
    pub fn replay_group(&mut self, group: &VersionMetaGroup, archive: &String)
        requires
            old(self).wf(),
        ensures
            final(self).wf(),
            final(self)@ == apply_metas(old(self)@, group@, archive@),
    {
        let ghost ms = group@;
        let mut i: usize = 0;
        while i < group.metas.len()
            invariant
                i <= group.metas@.len(),
                ms == group.metas@.map_values(|m: VersionMeta| m@),
                self.wf(),
                self@ == apply_metas(old(self)@, ms.take(i as int), archive@),
            decreases group.metas@.len() - i,
        {
            self.replay_operations(&group.metas[i], archive);
            assert(ms.take(i + 1).drop_last() =~= ms.take(i as int));
            i += 1;
        }
        assert(ms.take(i as int) =~= ms);
    }
}

/// Rebuilds, from an empty tree, the files that the whole history leaves, oldest
/// entry first. The result depends on the history alone.
pub fn replay_history(history: &Vec<LoadedVersion>) -> (r: FileTree)
    ensures
        r.wf(),
        r@ == replay_spec(history@.map_values(|v: LoadedVersion| v@)),
{
    let ghost h = history@.map_values(|v: LoadedVersion| v@);
    let mut tree = FileTree::new();
    let mut i: usize = 0;
    while i < history.len()
        invariant
            i <= history@.len(),
            h == history@.map_values(|v: LoadedVersion| v@),
            tree.wf(),
            tree@ == replay_spec(h.take(i as int)),
        decreases history@.len() - i,
    {
        tree.replay_group(&history[i].group, &history[i].archive);
        assert(h.take(i + 1).drop_last() =~= h.take(i as int));
        i += 1;
    }
    assert(h.take(i as int) =~= h);
    tree
}

} // verus!
