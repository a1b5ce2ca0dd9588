use dokosa::glob::GlobPathPattern;
use dokosa::index_file::{
    ChunkEntry, Embedding, IndexFileEntry, RepositoryEntry, parse_entry, serialize_entry,
};

fn embedding(tokens: &[&str]) -> Embedding {
    Embedding(tokens.iter().map(|t| t.as_bytes().to_vec()).collect())
}

fn repo_entry() -> IndexFileEntry {
    IndexFileEntry::Repository(RepositoryEntry {
        path: b"/r".to_vec(),
        commit: b"c1".to_vec(),
        chunk_window_size: 2,
        chunk_step_size: 1,
        include_files: vec![GlobPathPattern::new(b"*.rs")],
        exclude_files: vec![GlobPathPattern::new(b"*/tests/*")],
    })
}

fn chunk_entry() -> IndexFileEntry {
    IndexFileEntry::Chunk(ChunkEntry {
        path: b"a.txt".to_vec(),
        line: 0,
        embedding: embedding(&["1", "0.25", "-3.5e-2"]),
    })
}

#[test]
fn test_repository_round_trip() {
    let line = serialize_entry(&repo_entry());
    assert_eq!(
        String::from_utf8(line.clone()).unwrap(),
        "{\"type\":\"repository\",\"path\":\"/r\",\"commit\":\"c1\",\"chunk_window_size\":2,\
         \"chunk_step_size\":1,\"include_files\":[\"*.rs\"],\"exclude_files\":[\"*/tests/*\"]}"
    );
    match parse_entry(&line) {
        Some(IndexFileEntry::Repository(r)) => {
            assert_eq!(r.path, b"/r".to_vec());
            assert_eq!(r.commit, b"c1".to_vec());
            assert_eq!(r.chunk_window_size, 2);
            assert_eq!(r.chunk_step_size, 1);
            assert_eq!(r.include_files.len(), 1);
            assert_eq!(r.include_files[0].to_text(), b"*.rs".to_vec());
            assert_eq!(r.exclude_files.len(), 1);
            assert_eq!(r.exclude_files[0].to_text(), b"*/tests/*".to_vec());
        }
        _ => panic!("expected a repository record"),
    }
}

#[test]
fn test_chunk_round_trip() {
    let line = serialize_entry(&chunk_entry());
    assert_eq!(
        String::from_utf8(line.clone()).unwrap(),
        "{\"type\":\"chunk\",\"path\":\"a.txt\",\"line\":0,\"embedding\":[1,0.25,-3.5e-2]}"
    );
    match parse_entry(&line) {
        Some(IndexFileEntry::Chunk(c)) => {
            assert_eq!(c.path, b"a.txt".to_vec());
            assert_eq!(c.line, 0);
            assert_eq!(c.embedding.0, embedding(&["1", "0.25", "-3.5e-2"]).0);
        }
        _ => panic!("expected a chunk record"),
    }
}

#[test]
fn test_round_trip_with_escapes() {
    let entry = IndexFileEntry::Chunk(ChunkEntry {
        path: b"a \"b\"\\\n\t\x01.txt".to_vec(),
        line: 7,
        embedding: embedding(&["0"]),
    });
    let line = serialize_entry(&entry);
    match parse_entry(&line) {
        Some(IndexFileEntry::Chunk(c)) => {
            assert_eq!(c.path, b"a \"b\"\\\n\t\x01.txt".to_vec());
            assert_eq!(c.line, 7);
        }
        _ => panic!("expected a chunk record"),
    }
}

#[test]
fn test_parse_rejects_malformed_lines() {
    // unknown type discriminator
    assert!(parse_entry(b"{\"type\":\"other\",\"path\":\"x\"}").is_none());
    // missing fields
    assert!(parse_entry(b"{\"type\":\"chunk\",\"path\":\"x\"}").is_none());
    // extra trailing content
    let mut line = serialize_entry(&chunk_entry());
    line.push(b' ');
    assert!(parse_entry(&line).is_none());
    // a zero window size is rejected
    assert!(parse_entry(
        b"{\"type\":\"repository\",\"path\":\"/r\",\"commit\":\"c\",\"chunk_window_size\":0,\
          \"chunk_step_size\":1,\"include_files\":[],\"exclude_files\":[]}"
    )
    .is_none());
    // not JSON at all
    assert!(parse_entry(b"").is_none());
    assert!(parse_entry(b"hello").is_none());
}

#[test]
fn test_empty_pattern_lists() {
    let entry = IndexFileEntry::Repository(RepositoryEntry {
        path: b"/r".to_vec(),
        commit: b"c".to_vec(),
        chunk_window_size: 100,
        chunk_step_size: 50,
        include_files: vec![],
        exclude_files: vec![],
    });
    let line = serialize_entry(&entry);
    assert_eq!(
        String::from_utf8(line.clone()).unwrap(),
        "{\"type\":\"repository\",\"path\":\"/r\",\"commit\":\"c\",\"chunk_window_size\":100,\
         \"chunk_step_size\":50,\"include_files\":[],\"exclude_files\":[]}"
    );
    match parse_entry(&line) {
        Some(IndexFileEntry::Repository(r)) => {
            assert_eq!(r.include_files.len(), 0);
            assert_eq!(r.exclude_files.len(), 0);
        }
        _ => panic!("expected a repository record"),
    }
}
