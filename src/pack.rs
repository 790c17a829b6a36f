//! The decisions of a pack run: refuse a label the index already has, compare the
//! workspace with what history left, and describe the new version and its index entry.
use vstd::prelude::*;
use vstd::string::StringExecFns;
use crate::diff::{deletes_of, diff, updates_of, DiffResult, FilterRule};
use crate::codec::{
    dec_str, dec_u64, enc_str, get_str, get_u64, le64, lemma_dec_str, lemma_dec_u64, put_str,
    put_u64, str_fits, CodecError,
};
use crate::model::{MetaView, MetadataLocation, VersionMeta, VersionMetaGroup};
use crate::tree::{replay_history, replay_spec, FileTree, LoadedVersion};

verus! {

/// One published version: its label, its container file, where its metadata sits in
/// that file, and a content hash (or a placeholder).
pub struct VersionIndexEntry {
    pub label: String,
    pub filename: String,
    pub offset: u64,
    pub len: u32,
    pub hash: String,
}

pub ghost struct EntryView {
    pub label: Seq<char>,
    pub filename: Seq<char>,
    pub offset: u64,
    pub len: u32,
    pub hash: Seq<char>,
}

impl View for VersionIndexEntry {
    type V = EntryView;

    open spec fn view(&self) -> EntryView {
        EntryView {
            label: self.label@,
            filename: self.filename@,
            offset: self.offset,
            len: self.len,
            hash: self.hash@,
        }
    }
}

/// The published versions, oldest first.
pub struct VersionIndex {
    pub entries: Vec<VersionIndexEntry>,
}

impl VersionIndex {
    pub fn new() -> (r: VersionIndex)
        ensures
            r.entries@.len() == 0,
    {
        VersionIndex { entries: Vec::new() }
    }

    pub open spec fn has_label(&self, label: Seq<char>) -> bool {
        exists|i: int| 0 <= i < self.entries@.len() && (#[trigger] self.entries@[i]).label@ == label
    }

    /// Whether a version with this label was published.
    pub fn contains(&self, label: &String) -> (r: bool)
        ensures
            r == self.has_label(label@),
    {
        let mut i: usize = 0;
        while i < self.entries.len()
            invariant
                i <= self.entries@.len(),
                forall|k: int| 0 <= k < i ==> (#[trigger] self.entries@[k]).label@ != label@,
            decreases self.entries@.len() - i,
        {
            if self.entries[i].label == *label {
                return true;
            }
            i += 1;
        }
        false
    }

    /// Appends a newly published version.
    pub fn add(&mut self, entry: VersionIndexEntry)
        ensures
            final(self).entries@ == old(self).entries@.push(entry),
    {
        self.entries.push(entry);
    }
}

/// Why a pack run stops without writing anything.
#[derive(Clone, Copy, Debug, PartialEq, Eq, Structural)]
pub enum PackError {
    /// The label is already in the index.
    DuplicateVersion,
    /// The workspace holds no change.
    NoChanges,
}

/// The process status that reports a stop: 2 for a duplicate label, 1 for no change.
pub fn exit_code(e: PackError) -> (r: i32)
    ensures
        e == PackError::DuplicateVersion ==> r == 2,
        e == PackError::NoChanges ==> r == 1,
{
    match e {
        PackError::DuplicateVersion => 2,
        PackError::NoChanges => 1,
    }
}

/// Refuses a label that the index already has.
pub fn check_label(index: &VersionIndex, label: &String) -> (r: Result<(), PackError>)
    ensures
        index.has_label(label@) ==> r == Err::<(), PackError>(PackError::DuplicateVersion),
        !index.has_label(label@) ==> r is Ok,
{
    if index.contains(label) {
        Err(PackError::DuplicateVersion)
    } else {
        Ok(())
    }
}

/// Decides a pack run: a duplicate label stops it first; otherwise the workspace is
/// compared with the tree that the whole history leaves, and a run with no change
/// stops too. What it gives is what the new container must hold.
pub fn plan_pack(
    index: &VersionIndex,
    label: &String,
    history: &Vec<LoadedVersion>,
    workspace: &FileTree,
    rules: &Vec<FilterRule>,
) -> (r: Result<DiffResult, PackError>)
    ensures
        index.has_label(label@) ==> r matches Err(PackError::DuplicateVersion),
        !index.has_label(label@) ==> {
            let old_tree = replay_spec(history@.map_values(|v: LoadedVersion| v@));
            let rv = rules@.map_values(|x: FilterRule| x@);
            let ups = updates_of(workspace@, old_tree, rv);
            let dels = deletes_of(old_tree, workspace@, rv);
            &&& (ups.len() == 0 && dels.len() == 0) ==> (r matches Err(PackError::NoChanges))
            &&& (ups.len() > 0 || dels.len() > 0) ==> (r matches Ok(d) && d.updated_view() == ups
                && d.deleted_view() == dels)
        },
{
    if index.contains(label) {
        return Err(PackError::DuplicateVersion);
    }
    let old_tree = replay_history(history);
    let d = diff(workspace, &old_tree, rules);
    if !d.has_diff() {
        return Err(PackError::NoChanges);
    }
    Ok(d)
}

/// The name of the container file of a version: its label and `.tar`.
pub fn archive_filename(label: &String) -> (r: String)
    ensures
        r@ == label@ + seq!['.', 't', 'a', 'r'],
{
    let mut s = label.as_str().to_owned();
    s.append(".tar");
    proof {
        reveal_strlit(".tar");
    }
    s
}

/// The metadata of a new version: one version with the diff's full change list.
pub fn build_version(label: &String, logs: &String, d: &DiffResult) -> (r: VersionMetaGroup)
    ensures
        r@ == seq![
            MetaView {
                label: label@,
                logs: logs@,
                changes: d.deleted_view().map_values(
                    |p: Seq<char>| crate::model::ChangeView::Delete { path: p },
                ) + d.updated_view().map_values(|f| crate::diff::update_change(f)),
            },
        ],
{
    let changes = d.to_file_changes();
    let meta = VersionMeta::new(label.as_str().to_owned(), logs.as_str().to_owned(), changes);
    assert(meta@.changes == changes@.map_values(|c: crate::model::FileChange| c@));
    VersionMetaGroup::with_one(meta)
}

/// The index entry of a version just written.
pub fn index_entry(label: &String, filename: &String, loc: MetadataLocation) -> (r:
    VersionIndexEntry)
    ensures
        r.label@ == label@,
        r.filename@ == filename@,
        r.offset == loc.offset,
        r.len == loc.length,
        r.hash@ == "no hash"@,
{
    VersionIndexEntry {
        label: label.as_str().to_owned(),
        filename: filename.as_str().to_owned(),
        offset: loc.offset,
        len: loc.length,
        hash: "no hash".to_owned(),
    }
}

pub open spec fn enc_entry(e: EntryView) -> Seq<u8> {
    enc_str(e.label) + enc_str(e.filename) + le64(e.offset) + le64(e.len as u64) + enc_str(e.hash)
}

pub open spec fn enc_entries(es: Seq<EntryView>) -> Seq<u8>
    decreases es.len(),
{
    if es.len() == 0 {
        seq![]
    } else {
        enc_entry(es[0]) + enc_entries(es.drop_first())
    }
}

/// The encoding of an index: the entry count, then each entry's label, file name,
/// offset, length and hash.
pub open spec fn enc_index(es: Seq<EntryView>) -> Seq<u8> {
    le64(es.len() as u64) + enc_entries(es)
}

#[verifier::opaque]
pub open spec fn dec_entry(b: Seq<u8>) -> Option<(EntryView, Seq<u8>)> {
    match dec_str(b) {
        Some((label, r1)) => match dec_str(r1) {
            Some((filename, r2)) => match dec_u64(r2) {
                Some((offset, r3)) => match dec_u64(r3) {
                    Some((len, r4)) => if len <= u32::MAX {
                        match dec_str(r4) {
                            Some((hash, r5)) => Some(
                                (EntryView { label, filename, offset, len: len as u32, hash }, r5),
                            ),
                            None => None,
                        }
                    } else {
                        None
                    },
                    None => None,
                },
                None => None,
            },
            None => None,
        },
        None => None,
    }
}

pub open spec fn dec_entries(n: nat, b: Seq<u8>) -> Option<(Seq<EntryView>, Seq<u8>)>
    decreases n,
{
    if n == 0 {
        Some((seq![], b))
    } else {
        match dec_entry(b) {
            Some((e, r)) => match dec_entries((n - 1) as nat, r) {
                Some((es, r2)) => Some((seq![e] + es, r2)),
                None => None,
            },
            None => None,
        }
    }
}

/// What a byte sequence decodes to: an index that uses every byte, or nothing.
pub open spec fn dec_index(b: Seq<u8>) -> Option<Seq<EntryView>> {
    match dec_u64(b) {
        Some((n, r)) => match dec_entries(n as nat, r) {
            Some((es, rest)) => if rest.len() == 0 {
                Some(es)
            } else {
                None
            },
            None => None,
        },
        None => None,
    }
}

pub open spec fn entry_fits(e: EntryView) -> bool {
    str_fits(e.label) && str_fits(e.filename) && str_fits(e.hash)
}

proof fn lemma_dec_entry(e: EntryView, rest: Seq<u8>)
    requires
        entry_fits(e),
    ensures
        dec_entry(enc_entry(e) + rest) == Some((e, rest)),
{
    reveal(dec_entry);
    let t4 = enc_str(e.hash) + rest;
    let t3 = le64(e.len as u64) + t4;
    let t2 = le64(e.offset) + t3;
    let t1 = enc_str(e.filename) + t2;
    assert(enc_entry(e) + rest =~= enc_str(e.label) + t1);
    lemma_dec_str(e.label, t1);
    lemma_dec_str(e.filename, t2);
    lemma_dec_u64(e.offset, t3);
    lemma_dec_u64(e.len as u64, t4);
    lemma_dec_str(e.hash, rest);
}

proof fn lemma_dec_entries(es: Seq<EntryView>, rest: Seq<u8>)
    requires
        forall|i: int| 0 <= i < es.len() ==> entry_fits(#[trigger] es[i]),
    ensures
        dec_entries(es.len(), enc_entries(es) + rest) == Some((es, rest)),
    decreases es.len(),
{
    if es.len() > 0 {
        let tail = es.drop_first();
        assert(forall|i: int| 0 <= i < tail.len() ==> tail[i] == es[i + 1]);
        lemma_dec_entries(tail, rest);
        assert(enc_entries(es) + rest =~= enc_entry(es[0]) + (enc_entries(tail) + rest));
        assert(entry_fits(es[0]));
        lemma_dec_entry(es[0], enc_entries(tail) + rest);
        assert(seq![es[0]] + tail =~= es);
    }
}

/// Decoding the encoding of an index gives that index back.
pub proof fn lemma_index_round_trip(es: Seq<EntryView>)
    requires
        es.len() <= u64::MAX,
        forall|i: int| 0 <= i < es.len() ==> entry_fits(#[trigger] es[i]),
    ensures
        dec_index(enc_index(es)) == Some(es),
{
    lemma_dec_u64(es.len() as u64, enc_entries(es));
    lemma_dec_entries(es, seq![]);
    assert(enc_entries(es) + seq![] =~= enc_entries(es));
}

proof fn lemma_enc_entries_push(es: Seq<EntryView>, e: EntryView)
    ensures
        enc_entries(es.push(e)) == enc_entries(es) + enc_entry(e),
    decreases es.len(),
{
    if es.len() == 0 {
        let one = es.push(e);
        assert(one.drop_first() =~= Seq::<EntryView>::empty());
        assert(enc_entries(one.drop_first()) == Seq::<u8>::empty());
        assert(one[0] == e);
        assert(enc_entries(one) =~= enc_entry(e) + Seq::<u8>::empty());
        assert(enc_entries(es) == Seq::<u8>::empty());
        assert(enc_entries(es) + enc_entry(e) =~= enc_entry(e));
    } else {
        assert(es.push(e).drop_first() =~= es.drop_first().push(e));
        lemma_enc_entries_push(es.drop_first(), e);
        assert(enc_entries(es.push(e)) =~= enc_entries(es) + enc_entry(e));
    }
}

impl VersionIndex {
    pub open spec fn entries_view(&self) -> Seq<EntryView> {
        self.entries@.map_values(|e: VersionIndexEntry| e@)
    }

    /// Encodes the index as bytes.
    pub fn encode(&self) -> (r: Vec<u8>)
        ensures
            r@ == enc_index(self.entries_view()),
    {
        let mut out: Vec<u8> = Vec::new();
        put_u64(&mut out, self.entries.len() as u64);
        let ghost start = out@;
        let ghost es = self.entries_view();
        let mut i: usize = 0;
        while i < self.entries.len()
            invariant
                i <= self.entries@.len(),
                es == self.entries_view(),
                out@ == start + enc_entries(es.take(i as int)),
            decreases self.entries@.len() - i,
        {
            let e = &self.entries[i];
            let ghost before = out@;
            put_str(&mut out, &e.label);
            put_str(&mut out, &e.filename);
            put_u64(&mut out, e.offset);
            put_u64(&mut out, e.len as u64);
            put_str(&mut out, &e.hash);
            assert(out@ =~= before + enc_entry(es[i as int]));
            proof {
                assert(es.take(i + 1) =~= es.take(i as int).push(es[i as int]));
                lemma_enc_entries_push(es.take(i as int), es[i as int]);
            }
            i += 1;
            assert(out@ =~= start + enc_entries(es.take(i as int)));
        }
        assert(es.take(i as int) =~= es);
        assert(out@ =~= enc_index(es));
        out
    }

    /// Decodes an index from bytes; fails exactly on bytes that are no index's encoding.
    pub fn decode(b: &[u8]) -> (r: Result<VersionIndex, CodecError>)
        ensures
            r is Ok <==> dec_index(b@) is Some,
            r matches Ok(x) ==> dec_index(b@) == Some(x.entries_view()),
    {
        assert(b@.skip(0) =~= b@);
        let (n, pos0) = match get_u64(b, 0) {
            Some(x) => x,
            None => return Err(CodecError::Malformed),
        };
        let mut entries: Vec<VersionIndexEntry> = Vec::new();
        let mut cur = pos0;
        let mut i: u64 = 0;
        while i < n
            invariant
                dec_index(b@) == match dec_entries(n as nat, b@.skip(pos0 as int)) {
                    Some((es, rest)) => if rest.len() == 0 {
                        Some(es)
                    } else {
                        None
                    },
                    None => None,
                },
                pos0 <= cur <= b@.len(),
                i <= n,
                dec_entries(n as nat, b@.skip(pos0 as int)) == match dec_entries(
                    (n - i) as nat,
                    b@.skip(cur as int),
                ) {
                    Some((es, r)) => Some(
                        (entries@.map_values(|e: VersionIndexEntry| e@) + es, r),
                    ),
                    None => None,
                },
            decreases n - i,
        {
            let ghost rest = b@.skip(cur as int);
            match get_entry(b, cur) {
                Some((e, p)) => {
                    let ghost before = entries@.map_values(|e: VersionIndexEntry| e@);
                    entries.push(e);
                    proof {
                        let after = entries@.map_values(|e: VersionIndexEntry| e@);
                        assert(after =~= before.push(e@));
                        match dec_entries((n - i - 1) as nat, b@.skip(p as int)) {
                            Some((es, r)) => {
                                assert(before + (seq![e@] + es) =~= after + es);
                            },
                            None => {},
                        }
                    }
                    cur = p;
                    i += 1;
                },
                None => {
                    assert(dec_entries((n - i) as nat, rest) is None);
                    assert(dec_entries(n as nat, b@.skip(pos0 as int)) is None);
                    return Err(CodecError::Malformed);
                },
            }
        }
        let ghost ev = entries@.map_values(|e: VersionIndexEntry| e@);
        assert(ev + seq![] =~= ev);
        if cur != b.len() {
            return Err(CodecError::Malformed);
        }
        Ok(VersionIndex { entries })
    }
}

fn get_entry(b: &[u8], pos: usize) -> (r: Option<(VersionIndexEntry, usize)>)
    requires
        pos <= b@.len(),
    ensures
        r is None <==> dec_entry(b@.skip(pos as int)) is None,
        r matches Some((e, p)) ==> pos <= p <= b@.len() && dec_entry(b@.skip(pos as int))
            == Some((e@, b@.skip(p as int))),
{
    reveal(dec_entry);
    let (label, pos1) = match get_str(b, pos) {
        Some(x) => x,
        None => return None,
    };
    let (filename, pos2) = match get_str(b, pos1) {
        Some(x) => x,
        None => return None,
    };
    let (offset, pos3) = match get_u64(b, pos2) {
        Some(x) => x,
        None => return None,
    };
    let (len, pos4) = match get_u64(b, pos3) {
        Some(x) => x,
        None => return None,
    };
    if len > u32::MAX as u64 {
        return None;
    }
    let (hash, pos5) = match get_str(b, pos4) {
        Some(x) => x,
        None => return None,
    };
    Some((VersionIndexEntry { label, filename, offset, len: len as u32, hash }, pos5))
}

} // verus!
