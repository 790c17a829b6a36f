//! The container writer: a tar stream built in memory and handed out in pieces, which
//! records the payload offset of every file it stores and patches those offsets into
//! the version metadata that closes the container.
use vstd::prelude::*;
use vstd::string::StringSliceAdditionalSpecFns;
use vstd::utf8::{encode_utf8, is_ascii_chars, is_ascii_chars_encode_utf8};
use crate::codec::{enc_group, serialize};
use crate::model::{
    opt_str_view,
    ChangeView,
    FileChange,
    MetaView,
    MetadataLocation,
    VersionMeta,
    VersionMetaGroup,
};

verus! {

broadcast use vstd::seq_lib::group_seq_properties;

/// A tar stream that tar::Builder writes into an in-memory buffer.
#[verifier::external_body]
pub struct TarBuffer {
    builder: tar::Builder<Vec<u8>>,
}

/// The bytes that a builder has written into its buffer and that are still there.
pub uninterp spec fn tar_buffered(b: TarBuffer) -> Seq<u8>;

/// Whether a builder has written the archive's closing blocks.
pub uninterp spec fn tar_finished(b: TarBuffer) -> bool;

pub open spec fn zeros(n: nat) -> Seq<u8> {
    Seq::new(n, |i: int| 0u8)
}

/// The zero bytes that pad a payload of `len` bytes to a whole 512-byte block.
pub open spec fn pad_len(len: nat) -> nat {
    ((512 - len % 512) % 512) as nat
}

/// Relies on tar::Builder::new: it only stores the buffer and writes nothing.
#[verifier::external_body]
fn new_builder() -> (r: TarBuffer)
    ensures
        tar_buffered(r) == Seq::<u8>::empty(),
        !tar_finished(r),
{
    TarBuffer { builder: tar::Builder::new(Vec::new()) }
}

/// A relative path of named components: not empty, no NUL, no leading, trailing or
/// doubled slash, and no `.` or `..` component.
pub open spec fn simple_path(p: Seq<char>) -> bool {
    &&& p.len() > 0
    &&& p[0] != '/'
    &&& p[p.len() - 1] != '/'
    &&& forall|i: int| 0 <= i < p.len() ==> #[trigger] p[i] != '\0'
    &&& forall|i: int| 0 <= i < p.len() - 1 && #[trigger] p[i] == '/' ==> p[i + 1] != '/'
    &&& forall|i: int|
        0 <= i < p.len() && (i == 0 || p[i - 1] == '/') && #[trigger] p[i] == '.' ==> (i + 1
            < p.len() && p[i + 1] != '/' && (p[i + 1] == '.' ==> (i + 2 < p.len() && p[i + 2]
            != '/')))
}

/// Relies on tar::Builder::append_data with a fresh GNU header of the payload's size:
/// on success it writes header blocks (one 512-byte header when the path fits the
/// header's 100-byte name field and is simple, else possibly a long-name entry before
/// it), then the payload,
/// then zeros up to a whole block; it fails only before writing anything, and only on
/// a path that is not simple (header.rs: copy_path_into, prepare_header_path).
#[verifier::external_body]
fn append_entry(b: &mut TarBuffer, path: &str, data: &[u8]) -> (r: bool)
    ensures
        tar_finished(*final(b)) == tar_finished(*old(b)),
        simple_path(path@) ==> r,
        r ==> exists|h: Seq<u8>|
            512 <= h.len() <= path.spec_bytes().len() + 1536 && h.len() % 512 == 0 && (
            simple_path(path@) && path.spec_bytes().len() <= 100 ==> h.len() == 512) && #[trigger] tar_buffered(
                *final(b),
            ) == tar_buffered(*old(b)) + h + data@ + zeros(pad_len(data@.len())),
        !r ==> tar_buffered(*final(b)) == tar_buffered(*old(b)),
{
    let mut header = tar::Header::new_gnu();
    header.set_size(data.len() as u64);
    match b.builder.append_data(&mut header, path, data) {
        Ok(()) => true,
        Err(_) => false,
    }
}

/// Relies on tar::Builder::get_ref: the buffer the builder writes into.
#[verifier::external_body]
fn buffered_len(b: &TarBuffer) -> (r: usize)
    ensures
        r == tar_buffered(*b).len(),
{
    b.builder.get_ref().len()
}

/// Relies on tar::Builder::get_mut: empties the buffer the builder writes into.
#[verifier::external_body]
fn take_buffered(b: &mut TarBuffer) -> (r: Vec<u8>)
    ensures
        r@ == tar_buffered(*old(b)),
        tar_buffered(*final(b)) == Seq::<u8>::empty(),
        tar_finished(*final(b)) == tar_finished(*old(b)),
{
    std::mem::take(b.builder.get_mut())
}

/// Relies on tar::Builder::into_inner: an unfinished builder writes two zero blocks
/// into its `Vec`, which cannot fail, and gives the buffer back.
#[verifier::external_body]
fn into_buffer(b: TarBuffer) -> (r: Option<Vec<u8>>)
    requires
        !tar_finished(b),
    ensures
        r is Some,
        r matches Some(v) ==> v@ == tar_buffered(b) + zeros(1024),
{
    match b.builder.into_inner() {
        Ok(v) => Some(v),
        Err(_) => None,
    }
}

/// Why a container could not be written.
#[derive(Clone, Copy, Debug, PartialEq, Eq, Structural)]
pub enum WriterError {
    /// The archive format refused the entry (a path it cannot store).
    Rejected,
    /// An offset or a length does not fit its field.
    TooLarge,
}

/// One stored file: its path, the version it was stored for, the payload offset, and
/// the bytes.
pub ghost struct StoredFile {
    pub path: Seq<char>,
    pub version: Seq<char>,
    pub offset: u64,
    pub data: Seq<u8>,
}

/// The offset recorded last for `path` and `version`.
pub open spec fn find_address(recs: Seq<StoredFile>, path: Seq<char>, version: Seq<char>) -> Option<
    u64,
>
    decreases recs.len(),
{
    if recs.len() == 0 {
        None
    } else if recs.last().path == path && recs.last().version == version {
        Some(recs.last().offset)
    } else {
        find_address(recs.drop_last(), path, version)
    }
}

/// An update of version `label` gets the offset stored for it, if one was; everything
/// else stays as it is.
pub open spec fn patch_change(c: ChangeView, label: Seq<char>, recs: Seq<StoredFile>) -> ChangeView {
    match c {
        ChangeView::Update { path, offset, size, modified, hash } => match find_address(
            recs,
            path,
            label,
        ) {
            Some(a) => ChangeView::Update { path, offset: Some(a), size, modified, hash },
            None => c,
        },
        ChangeView::Delete { .. } => c,
    }
}

pub open spec fn patch_meta(m: MetaView, recs: Seq<StoredFile>) -> MetaView {
    MetaView {
        label: m.label,
        logs: m.logs,
        changes: m.changes.map_values(|c: ChangeView| patch_change(c, m.label, recs)),
    }
}

pub open spec fn patch_group(g: Seq<MetaView>, recs: Seq<StoredFile>) -> Seq<MetaView> {
    g.map_values(|m: MetaView| patch_meta(m, recs))
}

/// Every stored file's bytes sit at its offset in `out`.
pub open spec fn records_hold(recs: Seq<StoredFile>, out: Seq<u8>) -> bool {
    forall|k: int|
        0 <= k < recs.len() ==> {
            &&& (#[trigger] recs[k]).offset + recs[k].data.len() <= out.len()
            &&& out.subrange(recs[k].offset as int, recs[k].offset + recs[k].data.len())
                == recs[k].data
        }
}

proof fn lemma_find_address_stored(recs: Seq<StoredFile>, path: Seq<char>, version: Seq<char>)
    requires
        find_address(recs, path, version) is Some,
    ensures
        exists|k: int|
            0 <= k < recs.len() && (#[trigger] recs[k]).path == path && recs[k].version == version
                && Some(recs[k].offset) == find_address(recs, path, version),
    decreases recs.len(),
{
    let k = recs.len() - 1;
    if recs.last().path == path && recs.last().version == version {
        assert(recs[k] == recs.last());
    } else {
        let d = recs.drop_last();
        lemma_find_address_stored(d, path, version);
        let j = choose|j: int|
            0 <= j < d.len() && (#[trigger] d[j]).path == path && d[j].version == version && Some(
                d[j].offset,
            ) == find_address(d, path, version);
        assert(recs[j] == d[j]);
    }
}

/// In a container whose stored files all sit at their offsets, every update that the
/// metadata patch gave an offset points at exactly the bytes stored for that file and
/// that version.
pub proof fn lemma_patched_offsets_point_at_content(
    g: Seq<MetaView>,
    recs: Seq<StoredFile>,
    out: Seq<u8>,
    i: int,
    j: int,
)
    requires
        records_hold(recs, out),
        0 <= i < g.len(),
        0 <= j < g[i].changes.len(),
        g[i].changes[j] is Update,
        find_address(recs, g[i].changes[j].path(), g[i].label) is Some,
    ensures
        patch_group(g, recs)[i].changes[j] matches ChangeView::Update { path, offset: Some(o), .. }
            && path == g[i].changes[j].path() && exists|k: int|
            0 <= k < recs.len() && (#[trigger] recs[k]).path == path && recs[k].version
                == g[i].label && recs[k].offset == o && o + recs[k].data.len() <= out.len()
                && out.subrange(o as int, o + recs[k].data.len()) == recs[k].data,
{
    let c = g[i].changes[j];
    lemma_find_address_stored(recs, c.path(), g[i].label);
    assert(patch_group(g, recs)[i] == patch_meta(g[i], recs));
    assert(patch_group(g, recs)[i].changes[j] == patch_change(c, g[i].label, recs));
}

proof fn lemma_metadata_name(p: Seq<char>)
    requires
        p.len() == 12,
        p[0] == 'm',
        p[1] == 'e',
        p[2] == 't',
        p[3] == 'a',
        p[4] == 'd',
        p[5] == 'a',
        p[6] == 't',
        p[7] == 'a',
        p[8] == '.',
        p[9] == 't',
        p[10] == 'x',
        p[11] == 't',
    ensures
        simple_path(p),
        encode_utf8(p).len() == 12,
{
    assert forall|i: int| 0 <= i < p.len() implies p[i] != '\0' && p[i] != '/' && '\0' <= #[trigger] p[i]
        <= '\u{7f}' && (p[i] == '.' ==> i == 8) by {
        if i == 0 {
            assert(p[i] == 'm');
        } else if i == 1 {
            assert(p[i] == 'e');
        } else if i == 2 {
            assert(p[i] == 't');
        } else if i == 3 {
            assert(p[i] == 'a');
        } else if i == 4 {
            assert(p[i] == 'd');
        } else if i == 5 {
            assert(p[i] == 'a');
        } else if i == 6 {
            assert(p[i] == 't');
        } else if i == 7 {
            assert(p[i] == 'a');
        } else if i == 8 {
            assert(p[i] == '.');
        } else if i == 9 {
            assert(p[i] == 't');
        } else if i == 10 {
            assert(p[i] == 'x');
        } else if i == 11 {
            assert(p[i] == 't');
        }
    }
    assert(is_ascii_chars(p));
    is_ascii_chars_encode_utf8(p);
}

/// A container being written.
pub struct TarWriter {
    builder: TarBuffer,
    addresses: Vec<(String, String, u64)>,
    flushed: u64,
    handed_out: Ghost<Seq<u8>>,
    stored: Ghost<Seq<StoredFile>>,
}

impl TarWriter {
    /// Every byte of the container so far, handed out or not.
    pub closed spec fn output(&self) -> Seq<u8> {
        self.handed_out@ + tar_buffered(self.builder)
    }

    /// The bytes already handed out by `take_output`.
    pub closed spec fn handed_out(&self) -> Seq<u8> {
        self.handed_out@
    }

    /// The files stored so far, in order.
    pub closed spec fn stored(&self) -> Seq<StoredFile> {
        self.stored@
    }

    pub closed spec fn wf(&self) -> bool {
        &&& self.flushed == self.handed_out@.len()
        &&& self.output().len() <= u64::MAX
        &&& !tar_finished(self.builder)
        &&& self.addresses@.len() == self.stored@.len()
        &&& forall|k: int|
            0 <= k < self.stored@.len() ==> {
                &&& (#[trigger] self.addresses@[k]).0@ == self.stored@[k].path
                &&& self.addresses@[k].1@ == self.stored@[k].version
                &&& self.addresses@[k].2 == self.stored@[k].offset
            }
        &&& records_hold(self.stored@, self.output())
    }

    /// A writer of an empty container.
    pub fn new() -> (r: TarWriter)
        ensures
            r.wf(),
            r.output() == Seq::<u8>::empty(),
            r.handed_out() == Seq::<u8>::empty(),
            r.stored() == Seq::<StoredFile>::empty(),
    {
        let r = TarWriter {
            builder: new_builder(),
            addresses: Vec::new(),
            flushed: 0,
            handed_out: Ghost(Seq::empty()),
            stored: Ghost(Seq::empty()),
        };
        assert(r.output() =~= Seq::<u8>::empty());
        r
    }

    /// Hands out the bytes written since the last call, for the caller to write to
    /// the container file in order.
    pub fn take_output(&mut self) -> (r: Vec<u8>)
        requires
            old(self).wf(),
        ensures
            final(self).wf(),
            final(self).output() == old(self).output(),
            final(self).stored() == old(self).stored(),
            old(self).handed_out() + r@ == final(self).handed_out(),
            final(self).handed_out() == final(self).output(),
    {
        let out = take_buffered(&mut self.builder);
        self.flushed = self.flushed + out.len() as u64;
        self.handed_out = Ghost(self.handed_out@ + out@);
        assert(self.output() =~= old(self).output());
        out
    }

    /// Appends an entry holding `data` under `path`; gives the offset at which the
    /// bytes begin in the container.
    fn append(&mut self, path: &str, data: &[u8]) -> (r: Result<u64, WriterError>)
        requires
            old(self).wf(),
        ensures
            final(self).wf(),
            final(self).stored() == old(self).stored(),
            final(self).handed_out() == old(self).handed_out(),
            r is Err ==> final(self).output() == old(self).output(),
            r == Err::<u64, WriterError>(WriterError::TooLarge) <==> old(self).output().len()
                + path.spec_bytes().len() + data@.len() + 2048 > u64::MAX,
            simple_path(path@) && old(self).output().len() + path.spec_bytes().len() + data@.len()
                + 2048 <= u64::MAX ==> r is Ok,
            r matches Ok(off) ==> {
                &&& old(self).output().len() + 512 <= off
                &&& (off - old(self).output().len()) % 512 == 0
                &&& simple_path(path@) && path.spec_bytes().len() <= 100 ==> off == old(self).output().len() + 512
                &&& final(self).output().len() == off + data@.len() + pad_len(data@.len())
                &&& final(self).output().take(old(self).output().len() as int) == old(self).output()
                &&& final(self).output().subrange(off as int, off + data@.len()) == data@
            },
    {
        let ghost before = self.output();
        let buffered0 = buffered_len(&self.builder);
        let path_len = path.as_bytes().len();
        let worst: u128 = self.flushed as u128 + buffered0 as u128 + path_len as u128 + 1536
            + data.len() as u128 + 512;
        if worst > u64::MAX as u128 {
            return Err(WriterError::TooLarge);
        }
        let ok = append_entry(&mut self.builder, path, data);
        if !ok {
            assert(self.output() =~= before);
            return Err(WriterError::Rejected);
        }
        let ghost h = choose|h: Seq<u8>|
            512 <= h.len() <= path.spec_bytes().len() + 1536 && h.len() % 512 == 0 && (
            simple_path(path@) && path.spec_bytes().len() <= 100 ==> h.len() == 512) && #[trigger] tar_buffered(
                self.builder,
            ) == tar_buffered(old(self).builder) + h + data@ + zeros(pad_len(data@.len()));
        let ghost after = self.output();
        assert(after =~= before + h + data@ + zeros(pad_len(data@.len())));
        assert(pad_len(data@.len()) < 512);
        assert(h.len() <= path.spec_bytes().len() + 1536);
        assert(before.len() == self.flushed + buffered0);
        assert(after.len() == before.len() + h.len() + data@.len() + pad_len(data@.len()));
        assert(after.len() <= worst);
        let buffered = buffered_len(&self.builder);
        let len = data.len();
        let pad: usize = (512 - len % 512) % 512;
        let total: u64 = self.flushed + buffered as u64;
        let off: u64 = total - pad as u64 - len as u64;
        assert(off == before.len() + h.len());
        assert(after.subrange(off as int, off + data@.len()) =~= data@);
        assert(after.take(before.len() as int) =~= before);
        proof {
            let recs = self.stored@;
            assert forall|k: int| 0 <= k < recs.len() implies {
                &&& (#[trigger] recs[k]).offset + recs[k].data.len() <= after.len()
                &&& after.subrange(recs[k].offset as int, recs[k].offset + recs[k].data.len())
                    == recs[k].data
            } by {
                assert(after.subrange(recs[k].offset as int, recs[k].offset + recs[k].data.len())
                    =~= before.subrange(recs[k].offset as int, recs[k].offset + recs[k].data.len()));
            }
        }
        Ok(off)
    }

    /// Stores `data` as the file `path` of version `version`; gives the offset at which
    /// its bytes begin in the container.
    pub fn write_file(&mut self, data: &[u8], path: &String, version: &String) -> (r: Result<
        u64,
        WriterError,
    >)
        requires
            old(self).wf(),
        ensures
            final(self).wf(),
            final(self).handed_out() == old(self).handed_out(),
            final(self).output().take(old(self).output().len() as int) == old(self).output(),
            r is Err ==> final(self).stored() == old(self).stored() && final(self).output() == old(
                self,
            ).output(),
            r == Err::<u64, WriterError>(WriterError::TooLarge) <==> old(self).output().len()
                + encode_utf8(path@).len() + data@.len() + 2048 > u64::MAX,
            simple_path(path@) && old(self).output().len() + encode_utf8(path@).len() + data@.len()
                + 2048 <= u64::MAX ==> r is Ok,
            r matches Ok(off) ==> {
                &&& old(self).output().len() + 512 <= off
                &&& (off - old(self).output().len()) % 512 == 0
                &&& simple_path(path@) && encode_utf8(path@).len() <= 100 ==> off == old(
                    self,
                ).output().len() + 512
                &&& final(self).output().len() == off + data@.len() + pad_len(data@.len())
                &&& final(self).stored() == old(self).stored().push(
                    StoredFile { path: path@, version: version@, offset: off, data: data@ },
                )
                &&& final(self).output().subrange(off as int, off + data@.len()) == data@
            },
    {
        let off = match self.append(path.as_str(), data) {
            Ok(off) => off,
            Err(e) => {
                assert(self.output().take(old(self).output().len() as int) =~= old(self).output());
                return Err(e);
            },
        };
        let ghost rec = StoredFile { path: path@, version: version@, offset: off, data: data@ };
        let ghost recs = self.stored@.push(rec);
        let ghost mid_addr = self.addresses@;
        self.addresses.push((path.as_str().to_owned(), version.as_str().to_owned(), off));
        self.stored = Ghost(recs);
        assert forall|k: int| 0 <= k < recs.len() implies {
            &&& (#[trigger] recs[k]).offset + recs[k].data.len() <= self.output().len()
            &&& self.output().subrange(recs[k].offset as int, recs[k].offset + recs[k].data.len())
                == recs[k].data
        } by {
            if k < recs.len() - 1 {
                assert(recs[k] == old(self).stored@[k]);
            }
        }
        assert forall|k: int| 0 <= k < self.stored@.len() implies {
            &&& (#[trigger] self.addresses@[k]).0@ == self.stored@[k].path
            &&& self.addresses@[k].1@ == self.stored@[k].version
            &&& self.addresses@[k].2 == self.stored@[k].offset
        } by {
            if k < recs.len() - 1 {
                assert(self.addresses@[k] == mid_addr[k]);
            }
        }
        Ok(off)
    }

    /// The offset stored last for `path` in version `label`.
    fn address_of(&self, path: &String, label: &String) -> (r: Option<u64>)
        requires
            self.wf(),
        ensures
            r == find_address(self.stored(), path@, label@),
    {
        let ghost recs = self.stored@;
        let mut i: usize = self.addresses.len();
        assert(recs.take(i as int) =~= recs);
        while i > 0
            invariant
                i <= recs.len(),
                self.wf(),
                recs == self.stored@,
                find_address(recs, path@, label@) == find_address(recs.take(i as int), path@, label@),
            decreases i,
        {
            i -= 1;
            let entry = &self.addresses[i];
            assert(recs.take(i + 1).drop_last() =~= recs.take(i as int));
            assert(recs.take(i + 1).last() == recs[i as int]);
            if entry.0 == *path && entry.1 == *label {
                return Some(entry.2);
            }
        }
        None
    }

    fn patch_one(&self, c: &FileChange, label: &String) -> (r: FileChange)
        requires
            self.wf(),
        ensures
            r@ == patch_change(c@, label@, self.stored()),
    {
        match c {
            FileChange::UpdateFile { path, offset, size, modified, hash } => {
                let off = match self.address_of(path, label) {
                    Some(a) => Some(a),
                    None => *offset,
                };
                let h = match hash {
                    Some(x) => Some(x.as_str().to_owned()),
                    None => None,
                };
                assert(opt_str_view(h) == opt_str_view(*hash));
                FileChange::UpdateFile {
                    path: path.as_str().to_owned(),
                    offset: off,
                    size: *size,
                    modified: *modified,
                    hash: h,
                }
            },
            FileChange::DeleteFile { path } => FileChange::DeleteFile {
                path: path.as_str().to_owned(),
            },
        }
    }

    fn patch_version(&self, m: &VersionMeta) -> (r: VersionMeta)
        requires
            self.wf(),
        ensures
            r@ == patch_meta(m@, self.stored()),
    {
        let ghost target = patch_meta(m@, self.stored());
        let mut changes: Vec<FileChange> = Vec::new();
        let mut i: usize = 0;
        while i < m.changes.len()
            invariant
                i <= m.changes@.len(),
                self.wf(),
                target == patch_meta(m@, self.stored()),
                changes@.map_values(|c: FileChange| c@) == target.changes.take(i as int),
            decreases m.changes@.len() - i,
        {
            let ghost before = changes@.map_values(|c: FileChange| c@);
            let c = self.patch_one(&m.changes[i], &m.label);
            assert(c@ == target.changes[i as int]);
            changes.push(c);
            assert(changes@.map_values(|c: FileChange| c@) =~= before.push(c@));
            assert(target.changes.take(i + 1) =~= target.changes.take(i as int).push(c@));
            i += 1;
        }
        let r = VersionMeta {
            label: m.label.as_str().to_owned(),
            logs: m.logs.as_str().to_owned(),
            changes,
        };
        assert(r@.changes =~= target.changes);
        r
    }

    /// Closes the container: patches into `group` the offset stored for each update of
    /// each of its versions, appends the encoded group as the last entry, and ends the
    /// archive. Gives where the metadata sits and the bytes not handed out yet.
    pub fn finish(self, group: &VersionMetaGroup) -> (r: Result<
        (MetadataLocation, Vec<u8>),
        WriterError,
    >)
        requires
            self.wf(),
        ensures
            enc_group(patch_group(group@, self.stored())).len() > u32::MAX ==> r == Err::<
                (MetadataLocation, Vec<u8>),
                WriterError,
            >(WriterError::TooLarge),
            enc_group(patch_group(group@, self.stored())).len() <= u32::MAX && self.output().len()
                + enc_group(patch_group(group@, self.stored())).len() + 2060 <= u64::MAX ==> r is Ok,
            r matches Ok((loc, tail)) ==> {
                let full = self.handed_out() + tail@;
                let meta = enc_group(patch_group(group@, self.stored()));
                &&& full.take(self.output().len() as int) == self.output()
                &&& loc.length == meta.len()
                &&& loc.offset == self.output().len() + 512
                &&& full.len() == loc.offset + meta.len() + pad_len(meta.len()) + 1024
                &&& full.subrange(full.len() - 1024, full.len() as int) == zeros(1024)
                &&& loc.offset + meta.len() <= full.len()
                &&& full.subrange(loc.offset as int, loc.offset + meta.len()) == meta
                &&& records_hold(self.stored(), full)
            },
    {
        let ghost target = patch_group(group@, self.stored());
        let mut metas: Vec<VersionMeta> = Vec::new();
        let mut i: usize = 0;
        while i < group.metas.len()
            invariant
                i <= group.metas@.len(),
                self.wf(),
                target == patch_group(group@, self.stored()),
                metas@.map_values(|m: VersionMeta| m@) == target.take(i as int),
            decreases group.metas@.len() - i,
        {
            let ghost before = metas@.map_values(|m: VersionMeta| m@);
            let m = self.patch_version(&group.metas[i]);
            assert(m@ == target[i as int]);
            metas.push(m);
            assert(metas@.map_values(|m: VersionMeta| m@) =~= before.push(m@));
            assert(target.take(i + 1) =~= target.take(i as int).push(m@));
            i += 1;
        }
        let patched = VersionMetaGroup { metas };
        assert(patched@ =~= target);
        let bytes = serialize(&patched);
        if bytes.len() > u32::MAX as usize {
            return Err(WriterError::TooLarge);
        }
        let mut w = self;
        let ghost start = w.output();
        let name = "metadata.txt";
        proof {
            reveal_strlit("metadata.txt");
            lemma_metadata_name(name@);
        }
        let off = match w.append(name, bytes.as_slice()) {
            Ok(off) => off,
            Err(e) => return Err(e),
        };
        let ghost written = w.output();
        let ghost handed = w.handed_out@;
        let TarWriter { builder, .. } = w;
        let tail = match into_buffer(builder) {
            Some(v) => v,
            None => return Err(WriterError::Rejected),
        };
        proof {
            let full = handed + tail@;
            assert(full =~= written + zeros(1024));
            assert(full.subrange(full.len() - 1024, full.len() as int) =~= zeros(1024));
            assert(full.take(start.len() as int) =~= start);
            assert(full.subrange(off as int, off + bytes@.len()) =~= written.subrange(
                off as int,
                off + bytes@.len(),
            ));
            let recs = self.stored@;
            assert forall|k: int| 0 <= k < recs.len() implies {
                &&& (#[trigger] recs[k]).offset + recs[k].data.len() <= full.len()
                &&& full.subrange(recs[k].offset as int, recs[k].offset + recs[k].data.len())
                    == recs[k].data
            } by {
                assert(full.subrange(recs[k].offset as int, recs[k].offset + recs[k].data.len())
                    =~= start.subrange(recs[k].offset as int, recs[k].offset + recs[k].data.len()));
            }
        }
        Ok((MetadataLocation { offset: off, length: bytes.len() as u32 }, tail))
    }
}

} // verus!
