use vstd::prelude::*;

verus! {

/// Where the metadata blob of a finished container sits: payload offset and byte length.
#[derive(Clone, Copy, Debug, PartialEq, Eq, Structural)]
pub struct MetadataLocation {
    pub offset: u64,
    pub length: u32,
}

/// One file-level change of a version.
#[derive(Clone, Debug)]
pub enum FileChange {
    /// The file was created or modified; its bytes sit at `offset` in the version's
    /// own container (none when they were not kept there).
    UpdateFile { path: String, offset: Option<u64>, size: u64, modified: u64, hash: Option<String> },
    /// The file (or the directory and all it held) was removed.
    DeleteFile { path: String },
}

pub ghost enum ChangeView {
    Update { path: Seq<char>, offset: Option<u64>, size: u64, modified: u64, hash: Option<Seq<char>> },
    Delete { path: Seq<char> },
}

pub open spec fn opt_str_view(o: Option<String>) -> Option<Seq<char>> {
    match o {
        Some(s) => Some(s@),
        None => None,
    }
}

impl View for FileChange {
    type V = ChangeView;

    open spec fn view(&self) -> ChangeView {
        match self {
            FileChange::UpdateFile { path, offset, size, modified, hash } => ChangeView::Update {
                path: path@,
                offset: *offset,
                size: *size,
                modified: *modified,
                hash: opt_str_view(*hash),
            },
            FileChange::DeleteFile { path } => ChangeView::Delete { path: path@ },
        }
    }
}

impl ChangeView {
    pub open spec fn path(self) -> Seq<char> {
        match self {
            ChangeView::Update { path, .. } => path,
            ChangeView::Delete { path } => path,
        }
    }
}

/// The metadata of one version: its label, its changelog and its ordered changes.
#[derive(Clone, Debug)]
pub struct VersionMeta {
    pub label: String,
    pub logs: String,
    pub changes: Vec<FileChange>,
}

pub ghost struct MetaView {
    pub label: Seq<char>,
    pub logs: Seq<char>,
    pub changes: Seq<ChangeView>,
}

impl View for VersionMeta {
    type V = MetaView;

    open spec fn view(&self) -> MetaView {
        MetaView {
            label: self.label@,
            logs: self.logs@,
            changes: self.changes@.map_values(|c: FileChange| c@),
        }
    }
}

impl VersionMeta {
    pub fn new(label: String, logs: String, changes: Vec<FileChange>) -> (r: VersionMeta)
        ensures
            r.label@ == label@,
            r.logs@ == logs@,
            r.changes@ == changes@,
    {
        VersionMeta { label, logs, changes }
    }
}

/// The metadata of one or more versions, stored as a single blob in one container.
#[derive(Clone, Debug)]
pub struct VersionMetaGroup {
    pub metas: Vec<VersionMeta>,
}

impl View for VersionMetaGroup {
    type V = Seq<MetaView>;

    open spec fn view(&self) -> Seq<MetaView> {
        self.metas@.map_values(|m: VersionMeta| m@)
    }
}

impl VersionMetaGroup {
    pub fn with_one(meta: VersionMeta) -> (r: VersionMetaGroup)
        ensures
            r@ == seq![meta@],
    {
        let mut metas: Vec<VersionMeta> = Vec::new();
        metas.push(meta);
        let r = VersionMetaGroup { metas };
        assert(r@ =~= seq![meta@]);
        r
    }
}

} // verus!
