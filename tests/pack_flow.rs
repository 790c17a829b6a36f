use mcpatch_manager::codec::{deserialize, serialize, CodecError};
use mcpatch_manager::diff::{diff, glob_matches, is_excluded, FilterRule};
use mcpatch_manager::model::{FileChange, VersionMeta, VersionMetaGroup};
use mcpatch_manager::pack::{
    archive_filename, build_version, check_label, exit_code, index_entry, plan_pack, PackError,
    VersionIndex,
};
use mcpatch_manager::tree::{
    is_ancestor_path, replay_history, Backing, ContentSource, FileTree, LoadedVersion, TreeError,
    TreeFile,
};
use mcpatch_manager::writer::TarWriter;

fn disk_file(path: &str, size: u64, modified: u64) -> TreeFile {
    TreeFile { path: path.to_string(), size, modified, hash: None, backing: Backing::Disk }
}

fn workspace(files: &[(&str, u64, u64)]) -> FileTree {
    let mut t = FileTree::new();
    for (p, s, m) in files {
        t.insert_file(disk_file(p, *s, *m));
    }
    t
}

fn paths(t: &FileTree) -> Vec<String> {
    (0..t.len()).map(|i| t.get(i).path.clone()).collect()
}

fn change_summary(c: &FileChange) -> (bool, String, Option<u64>, u64) {
    match c {
        FileChange::UpdateFile { path, offset, size, .. } => (true, path.clone(), *offset, *size),
        FileChange::DeleteFile { path } => (false, path.clone(), None, 0),
    }
}

/// Packs `files` (path, bytes, mtime) as version `label` against `history`; gives the
/// container's bytes, the metadata location and the entry that the history then gets.
fn pack(
    label: &str,
    history: &Vec<LoadedVersion>,
    files: &[(&str, &[u8], u64)],
) -> Result<(Vec<u8>, LoadedVersion), PackError> {
    let ws = workspace(&files.iter().map(|(p, d, m)| (*p, d.len() as u64, *m)).collect::<Vec<_>>());
    let index = VersionIndex::new();
    let d = plan_pack(&index, &label.to_string(), history, &ws, &Vec::new())?;
    let mut w = TarWriter::new();
    let mut out = Vec::new();
    for f in &d.updated_files {
        let data = files.iter().find(|(p, _, _)| *p == f.path).unwrap().1;
        w.write_file(data, &f.path, &label.to_string()).unwrap();
        out.extend(w.take_output());
    }
    let group = build_version(&label.to_string(), &"log".to_string(), &d);
    let (loc, tail) = w.finish(&group).unwrap();
    out.extend(tail);
    let meta = &out[loc.offset as usize..loc.offset as usize + loc.length as usize];
    let group = deserialize(meta).unwrap();
    let archive = archive_filename(&label.to_string());
    Ok((out, LoadedVersion { archive, group }))
}

fn sample_group() -> VersionMetaGroup {
    let m1 = VersionMeta::new(
        "1.0".to_string(),
        "first release\nwith ünïcödé".to_string(),
        vec![
            FileChange::UpdateFile {
                path: "mods/a.jar".to_string(),
                offset: Some(1536),
                size: 10,
                modified: 77,
                hash: Some("abc".to_string()),
            },
            FileChange::DeleteFile { path: "old.txt".to_string() },
            FileChange::UpdateFile {
                path: "b.txt".to_string(),
                offset: None,
                size: u64::MAX,
                modified: 0,
                hash: None,
            },
        ],
    );
    let m2 = VersionMeta::new("1.1".to_string(), String::new(), Vec::new());
    VersionMetaGroup { metas: vec![m1, m2] }
}

#[test]
fn metadata_round_trip() {
    let g = sample_group();
    let bytes = serialize(&g);
    let back = deserialize(&bytes).unwrap();
    assert_eq!(back.metas.len(), 2);
    for (a, b) in g.metas.iter().zip(back.metas.iter()) {
        assert_eq!(a.label, b.label);
        assert_eq!(a.logs, b.logs);
        assert_eq!(a.changes.len(), b.changes.len());
        for (x, y) in a.changes.iter().zip(b.changes.iter()) {
            assert_eq!(format!("{:?}", x), format!("{:?}", y));
        }
    }
}

#[test]
fn metadata_encoding_layout() {
    let g = VersionMetaGroup::with_one(VersionMeta::new(
        "v".to_string(),
        String::new(),
        vec![FileChange::DeleteFile { path: "a".to_string() }],
    ));
    let bytes = serialize(&g);
    let mut expected = vec![1, 0, 0, 0, 0, 0, 0, 0];
    expected.extend([1, 0, 0, 0, 0, 0, 0, 0, b'v']);
    expected.extend([0; 8]);
    expected.extend([1, 0, 0, 0, 0, 0, 0, 0]);
    expected.extend([1, 1, 0, 0, 0, 0, 0, 0, 0, b'a']);
    assert_eq!(bytes, expected);
}

#[test]
fn metadata_rejects_malformed() {
    assert_eq!(deserialize(&[]).err(), Some(CodecError::Malformed));
    assert_eq!(deserialize(&[0; 8]).err(), Some(CodecError::Malformed));
    let mut bytes = serialize(&sample_group());
    bytes.push(0);
    assert_eq!(deserialize(&bytes).err(), Some(CodecError::Malformed));
    bytes.pop();
    bytes.pop();
    assert_eq!(deserialize(&bytes).err(), Some(CodecError::Malformed));
    let bad_utf8 = [1, 0, 0, 0, 0, 0, 0, 0, 1, 0, 0, 0, 0, 0, 0, 0, 0xff];
    assert_eq!(deserialize(&bad_utf8).err(), Some(CodecError::Malformed));
}

#[test]
fn replay_twice_gives_the_same_tree() {
    let history = vec![LoadedVersion { archive: "1.0.tar".to_string(), group: sample_group() }];
    let a = replay_history(&history);
    let b = replay_history(&history);
    assert_eq!(paths(&a), paths(&b));
    assert_eq!(paths(&a), vec!["mods/a.jar".to_string(), "b.txt".to_string()]);
    for i in 0..a.len() {
        assert_eq!(format!("{:?}", a.get(i)), format!("{:?}", b.get(i)));
    }
    assert_eq!(
        a.get(0).source(),
        Ok(ContentSource::Archive { archive: "1.0.tar".to_string(), offset: 1536, length: 10 })
    );
    assert_eq!(a.get(1).source(), Err(TreeError::ContentUnavailable));
}

#[test]
fn replay_delete_is_idempotent_and_removes_directories() {
    let mut t = workspace(&[("d/x", 1, 0), ("d/y/z", 2, 0), ("e", 3, 0)]);
    t.replay_change(&FileChange::DeleteFile { path: "missing".to_string() }, &"a".to_string());
    assert_eq!(t.len(), 3);
    t.replay_change(&FileChange::DeleteFile { path: "d".to_string() }, &"a".to_string());
    assert_eq!(paths(&t), vec!["e".to_string()]);
    t.replay_change(&FileChange::DeleteFile { path: "d".to_string() }, &"a".to_string());
    assert_eq!(paths(&t), vec!["e".to_string()]);
}

#[test]
fn insert_replaces_file_that_becomes_directory() {
    let mut t = workspace(&[("a", 1, 0), ("b/c", 1, 0)]);
    t.insert_file(disk_file("a/inner", 5, 0));
    t.insert_file(disk_file("b", 7, 0));
    assert_eq!(paths(&t), vec!["a/inner".to_string(), "b".to_string()]);
    assert_eq!(t.find(&"b".to_string()).unwrap().size, 7);
    assert!(t.find(&"b/c".to_string()).is_none());
}

#[test]
fn ancestor_paths() {
    assert!(is_ancestor_path(&"a".to_string(), &"a/b".to_string()));
    assert!(!is_ancestor_path(&"a".to_string(), &"ab".to_string()));
    assert!(!is_ancestor_path(&"a/b".to_string(), &"a/b".to_string()));
}

#[test]
fn diff_of_tree_with_itself_is_empty() {
    let t = workspace(&[("a.txt", 10, 1), ("dir/b.txt", 3, 2)]);
    let rules = vec![FilterRule { pattern: "*.txt".to_string(), keep: true }];
    let d = diff(&t, &t, &rules);
    assert!(!d.has_diff());
    assert!(d.to_file_changes().is_empty());
}

#[test]
fn excluded_paths_never_change() {
    let new = workspace(&[("logs/today.log", 5, 9), ("b.txt", 1, 1), ("keep.log", 2, 2)]);
    let old = workspace(&[("logs/old.log", 5, 1), ("c.txt", 1, 1)]);
    let rules = vec![
        FilterRule { pattern: "keep.log".to_string(), keep: true },
        FilterRule { pattern: "*.log".to_string(), keep: false },
    ];
    let d = diff(&new, &old, &rules);
    let changes: Vec<_> = d.to_file_changes().iter().map(change_summary).collect();
    assert_eq!(
        changes,
        vec![
            (false, "c.txt".to_string(), None, 0),
            (true, "b.txt".to_string(), None, 1),
            (true, "keep.log".to_string(), None, 2),
        ]
    );
}

#[test]
fn glob_and_first_match() {
    assert!(glob_matches(&"*.log".to_string(), &"a/b.log".to_string()));
    assert!(glob_matches(&"a?c".to_string(), &"abc".to_string()));
    assert!(!glob_matches(&"a?c".to_string(), &"ac".to_string()));
    assert!(glob_matches(&"*".to_string(), &"".to_string()));
    assert!(!glob_matches(&"cache/*".to_string(), &"cached".to_string()));
    let rules = vec![
        FilterRule { pattern: "x/*".to_string(), keep: true },
        FilterRule { pattern: "*".to_string(), keep: false },
    ];
    assert!(!is_excluded(&"x/y".to_string(), &rules));
    assert!(is_excluded(&"z".to_string(), &rules));
    assert!(!is_excluded(&"z".to_string(), &Vec::new()));
}

#[test]
fn modified_file_detection() {
    let old = workspace(&[("a", 10, 1), ("b", 10, 1), ("c", 10, 1)]);
    let mut new = workspace(&[("a", 10, 1), ("b", 11, 1), ("c", 10, 2)]);
    let d = diff(&new, &old, &Vec::new());
    let changed: Vec<_> = d.updated_files.iter().map(|f| f.path.clone()).collect();
    assert_eq!(changed, vec!["b".to_string(), "c".to_string()]);
    let mut hashed = disk_file("a", 10, 1);
    hashed.hash = Some("h".to_string());
    new.insert_file(hashed);
    assert_eq!(diff(&new, &old, &Vec::new()).updated_files.len(), 2);
}

#[test]
fn type_change_is_delete_then_add() {
    let old = workspace(&[("x", 4, 1)]);
    let new = workspace(&[("x/y", 4, 1)]);
    let d = diff(&new, &old, &Vec::new());
    let changes: Vec<_> = d.to_file_changes().iter().map(change_summary).collect();
    assert_eq!(changes, vec![(false, "x".to_string(), None, 0), (true, "x/y".to_string(), None, 4)]);
    let mut t = old;
    for c in &d.to_file_changes() {
        t.replay_change(c, &"v".to_string());
    }
    assert_eq!(paths(&t), vec!["x/y".to_string()]);
}

#[test]
fn empty_workspace_and_index_have_nothing_to_pack() {
    let r = plan_pack(&VersionIndex::new(), &"1.0".to_string(), &Vec::new(), &FileTree::new(), &Vec::new());
    assert_eq!(r.err(), Some(PackError::NoChanges));
    assert_eq!(exit_code(PackError::NoChanges), 1);
}

#[test]
fn single_new_file_is_packed() {
    let data: &[u8] = b"0123456789";
    let (out, entry) = pack("1.0", &Vec::new(), &[("a.txt", data, 5)]).unwrap();
    assert_eq!(entry.archive, "1.0.tar");
    assert_eq!(entry.group.metas.len(), 1);
    let changes = &entry.group.metas[0].changes;
    assert_eq!(changes.len(), 1);
    match &changes[0] {
        FileChange::UpdateFile { path, offset: Some(o), size, .. } => {
            assert_eq!(path, "a.txt");
            assert_eq!(*size, 10);
            assert_eq!(*o, 512);
            assert_eq!(&out[*o as usize..*o as usize + 10], data);
        },
        other => panic!("unexpected change {:?}", other),
    }
    assert_eq!(out.len() % 512, 0);
}

#[test]
fn delete_and_add_between_versions() {
    let (_, v1) = pack("1.0", &Vec::new(), &[("a.txt", b"aaaa", 1)]).unwrap();
    let history = vec![v1];
    let (_, v2) = pack("1.1", &history, &[("b.txt", b"bb", 2)]).unwrap();
    let changes: Vec<_> = v2.group.metas[0].changes.iter().map(change_summary).collect();
    assert_eq!(changes.len(), 2);
    assert_eq!((changes[0].0, changes[0].1.as_str()), (false, "a.txt"));
    assert_eq!((changes[1].0, changes[1].1.as_str()), (true, "b.txt"));
}

#[test]
fn repack_without_change_finds_nothing() {
    let files: &[(&str, &[u8], u64)] = &[("a.txt", b"same", 3), ("d/e.txt", b"x", 4)];
    let (_, v1) = pack("1.0", &Vec::new(), files).unwrap();
    assert_eq!(pack("1.1", &vec![v1], files).err(), Some(PackError::NoChanges));
}

#[test]
fn duplicate_label_is_refused() {
    let mut index = VersionIndex::new();
    let loc = mcpatch_manager::model::MetadataLocation { offset: 1024, length: 40 };
    index.add(index_entry(&"1.0".to_string(), &"1.0.tar".to_string(), loc));
    assert!(index.contains(&"1.0".to_string()));
    assert_eq!(check_label(&index, &"1.0".to_string()), Err(PackError::DuplicateVersion));
    assert_eq!(check_label(&index, &"1.1".to_string()), Ok(()));
    let ws = workspace(&[("a.txt", 1, 1)]);
    let r = plan_pack(&index, &"1.0".to_string(), &Vec::new(), &ws, &Vec::new());
    assert_eq!(r.err(), Some(PackError::DuplicateVersion));
    assert_eq!(exit_code(PackError::DuplicateVersion), 2);
    assert_eq!(index.entries[0].offset, 1024);
    assert_eq!(index.entries[0].len, 40);
}

#[test]
fn offsets_point_at_stored_bytes() {
    let long_name = format!("{}/file.bin", "deep".repeat(40));
    let a: Vec<u8> = (0..700u32).map(|i| (i % 251) as u8).collect();
    let b: Vec<u8> = vec![7; 512];
    let mut w = TarWriter::new();
    let oa = w.write_file(&a, &"a.bin".to_string(), &"2.0".to_string()).unwrap();
    let mut out = w.take_output();
    let ob = w.write_file(&b, &long_name, &"2.0".to_string()).unwrap();
    let group = VersionMetaGroup::with_one(VersionMeta::new(
        "2.0".to_string(),
        "notes".to_string(),
        vec![
            FileChange::UpdateFile { path: "a.bin".to_string(), offset: None, size: 700, modified: 0, hash: None },
            FileChange::UpdateFile { path: long_name.clone(), offset: None, size: 512, modified: 0, hash: None },
            FileChange::UpdateFile { path: "kept.bin".to_string(), offset: Some(9), size: 1, modified: 0, hash: None },
        ],
    ));
    let (loc, tail) = w.finish(&group).unwrap();
    out.extend(tail);
    assert_eq!(oa, 512);
    assert!(ob > oa + 700);
    assert_eq!(&out[oa as usize..oa as usize + 700], &a[..]);
    assert_eq!(&out[ob as usize..ob as usize + 512], &b[..]);
    let meta = deserialize(&out[loc.offset as usize..(loc.offset + loc.length as u64) as usize]).unwrap();
    let offsets: Vec<_> = meta.metas[0].changes.iter().map(|c| change_summary(c).2).collect();
    assert_eq!(offsets, vec![Some(oa), Some(ob), Some(9)]);
    assert_eq!(out.len() % 512, 0);
    assert!(out[out.len() - 1024..].iter().all(|x| *x == 0));
}

#[test]
fn writer_rejects_unstorable_path() {
    let mut w = TarWriter::new();
    assert!(w.write_file(b"x", &"../escape".to_string(), &"1".to_string()).is_err());
    let ok = w.write_file(b"x", &"fine".to_string(), &"1".to_string()).unwrap();
    assert_eq!(ok, 512);
}

#[test]
fn equal_hashes_decide_over_mtime() {
    let mut a = disk_file("a", 10, 1);
    a.hash = Some("same".to_string());
    let mut b = disk_file("a", 10, 99);
    b.hash = Some("same".to_string());
    let mut old = FileTree::new();
    old.insert_file(a);
    let mut new = FileTree::new();
    new.insert_file(b);
    assert!(!diff(&new, &old, &Vec::new()).has_diff());
    let mut c = disk_file("a", 10, 1);
    c.hash = Some("other".to_string());
    let mut newer = FileTree::new();
    newer.insert_file(c);
    assert_eq!(diff(&newer, &old, &Vec::new()).updated_files.len(), 1);
}

#[test]
fn excluded_directory_hides_its_files() {
    let new = workspace(&[("cache/x/new.bin", 5, 9), ("a.txt", 1, 1)]);
    let old = workspace(&[("cache/old.bin", 5, 1), ("a.txt", 1, 1)]);
    let rules = vec![FilterRule { pattern: "cache".to_string(), keep: false }];
    assert!(mcpatch_manager::diff::is_hidden(&"cache/x/new.bin".to_string(), &rules));
    assert!(!mcpatch_manager::diff::is_hidden(&"cached.txt".to_string(), &rules));
    assert!(!diff(&new, &old, &rules).has_diff());
}

#[test]
fn container_layout_is_exact() {
    let mut w = TarWriter::new();
    let off = w.write_file(b"0123456789", &"a.txt".to_string(), &"1.0".to_string()).unwrap();
    assert_eq!(off, 512);
    let group = VersionMetaGroup::with_one(VersionMeta::new(
        "1.0".to_string(),
        "log".to_string(),
        vec![FileChange::UpdateFile { path: "a.txt".to_string(), offset: None, size: 10, modified: 0, hash: None }],
    ));
    let (loc, tail) = w.finish(&group).unwrap();
    assert_eq!(loc.offset, 1536);
    let padded = (loc.length as u64 + 511) / 512 * 512;
    assert_eq!(tail.len() as u64, loc.offset + padded + 1024);
    assert!(tail[tail.len() - 1024..].iter().all(|x| *x == 0));
    let meta = deserialize(&tail[1536..1536 + loc.length as usize]).unwrap();
    assert_eq!(change_summary(&meta.metas[0].changes[0]).2, Some(512));
}

#[test]
fn long_name_route_offset_is_measured() {
    let path = format!("{}/..", "a".repeat(97));
    assert_eq!(path.len(), 100);
    let mut w = TarWriter::new();
    let off = w.write_file(b"xyz", &path, &"1".to_string()).unwrap();
    let out = w.take_output();
    assert_eq!(off, 1536);
    assert_eq!(&out[off as usize..off as usize + 3], b"xyz");
    assert_eq!(out.len(), 2048);
}
