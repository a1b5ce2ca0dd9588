use dokosa::index_file::{ChunkEntry, Embedding, IndexError, IndexFileEntry, RepositoryEntry};
use dokosa::sync::{has_repository, remove_plan, sync_plan, RepoProbe, SyncItem};

fn repo(path: &[u8], commit: &[u8]) -> IndexFileEntry {
    IndexFileEntry::Repository(RepositoryEntry {
        path: path.to_vec(),
        commit: commit.to_vec(),
        chunk_window_size: 2,
        chunk_step_size: 1,
        include_files: vec![],
        exclude_files: vec![],
    })
}

fn chunk(path: &[u8], line: usize) -> IndexFileEntry {
    IndexFileEntry::Chunk(ChunkEntry {
        path: path.to_vec(),
        line,
        embedding: Embedding(vec![b"1".to_vec()]),
    })
}

fn shape(entries: &[IndexFileEntry]) -> Vec<(bool, Vec<u8>)> {
    entries
        .iter()
        .map(|e| match e {
            IndexFileEntry::Repository(r) => (true, r.path.clone()),
            IndexFileEntry::Chunk(c) => (false, c.path.clone()),
        })
        .collect()
}

#[test]
fn test_remove_drops_whole_section() {
    let entries = vec![
        repo(b"/a", b"c1"),
        chunk(b"x.txt", 0),
        chunk(b"y.txt", 0),
        repo(b"/b", b"c2"),
        chunk(b"z.txt", 0),
        repo(b"/c", b"c3"),
        chunk(b"w.txt", 0),
    ];
    let out = remove_plan(&entries, b"/b").unwrap();
    assert_eq!(
        shape(&out),
        vec![
            (true, b"/a".to_vec()),
            (false, b"x.txt".to_vec()),
            (false, b"y.txt".to_vec()),
            (true, b"/c".to_vec()),
            (false, b"w.txt".to_vec()),
        ]
    );
}

#[test]
fn test_remove_unknown_repository_fails() {
    let entries = vec![repo(b"/a", b"c1"), chunk(b"x.txt", 0)];
    match remove_plan(&entries, b"/nope") {
        Err(e) => assert_eq!(e, IndexError::RepositoryNotFound),
        Ok(_) => panic!("expected an error"),
    }
}

#[test]
fn test_remove_rejects_orphan_chunk() {
    let entries = vec![chunk(b"x.txt", 0), repo(b"/a", b"c1")];
    match remove_plan(&entries, b"/a") {
        Err(e) => assert_eq!(e, IndexError::ChunkBeforeRepository),
        Ok(_) => panic!("expected an error"),
    }
}

#[test]
fn test_has_repository() {
    let entries = vec![repo(b"/a", b"c1"), chunk(b"x.txt", 0)];
    assert!(has_repository(&entries, b"/a"));
    assert!(!has_repository(&entries, b"/b"));
}

fn item_shape(items: &[SyncItem]) -> Vec<(u8, Vec<u8>)> {
    items
        .iter()
        .map(|it| match it {
            SyncItem::Entry(IndexFileEntry::Repository(r)) => (b'r', r.path.clone()),
            SyncItem::Entry(IndexFileEntry::Chunk(c)) => (b'c', c.path.clone()),
            SyncItem::Reembed { path, .. } => (b'e', path.clone()),
        })
        .collect()
}

#[test]
fn test_sync_unchanged_is_identity() {
    let entries = vec![repo(b"/a", b"c1"), chunk(b"x.txt", 0), chunk(b"y.txt", 0)];
    let probes = vec![RepoProbe::Unchanged];
    let out = sync_plan(&entries, &probes).unwrap();
    assert_eq!(
        item_shape(&out),
        vec![(b'r', b"/a".to_vec()), (b'c', b"x.txt".to_vec()), (b'c', b"y.txt".to_vec())]
    );
    // running the same plan again over the unchanged result changes nothing
    let again: Vec<IndexFileEntry> = out
        .into_iter()
        .map(|it| match it {
            SyncItem::Entry(e) => e,
            SyncItem::Reembed { .. } => panic!("no re-embeds expected"),
        })
        .collect();
    let out2 = sync_plan(&again, &probes).unwrap();
    assert_eq!(
        item_shape(&out2),
        vec![(b'r', b"/a".to_vec()), (b'c', b"x.txt".to_vec()), (b'c', b"y.txt".to_vec())]
    );
}

#[test]
fn test_sync_invalid_repository_section_vanishes() {
    // Scenario: the adapter reports the repository root is no longer valid.
    let entries = vec![
        repo(b"/gone", b"c1"),
        chunk(b"x.txt", 0),
        repo(b"/keep", b"c2"),
        chunk(b"y.txt", 0),
    ];
    let probes = vec![RepoProbe::Invalid, RepoProbe::Unchanged];
    let out = sync_plan(&entries, &probes).unwrap();
    assert_eq!(item_shape(&out), vec![(b'r', b"/keep".to_vec()), (b'c', b"y.txt".to_vec())]);
}

#[test]
fn test_sync_diff_drops_and_reembeds() {
    // Scenario: updated={b.txt}, removed={c.txt}; a.txt keeps its chunks,
    // b.txt and c.txt lose theirs, and b.txt is re-embedded.
    let entries = vec![
        repo(b"/r", b"c1"),
        chunk(b"a.txt", 0),
        chunk(b"b.txt", 0),
        chunk(b"c.txt", 0),
    ];
    let probes = vec![RepoProbe::Changed {
        commit: b"c2".to_vec(),
        updated: vec![b"b.txt".to_vec()],
        removed: vec![b"c.txt".to_vec()],
    }];
    let out = sync_plan(&entries, &probes).unwrap();
    assert_eq!(
        item_shape(&out),
        vec![(b'r', b"/r".to_vec()), (b'e', b"b.txt".to_vec()), (b'c', b"a.txt".to_vec())]
    );
    match &out[0] {
        SyncItem::Entry(IndexFileEntry::Repository(r)) => {
            assert_eq!(r.commit, b"c2".to_vec());
            assert_eq!(r.chunk_window_size, 2);
            assert_eq!(r.chunk_step_size, 1);
        }
        _ => panic!("expected the rewritten repository record first"),
    }
}
