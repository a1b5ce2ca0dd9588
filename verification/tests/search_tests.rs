use dokosa::glob::{GlobPathFilter, GlobPathPattern};
use dokosa::index_file::{ChunkEntry, Embedding, IndexFileEntry, RepositoryEntry};
use dokosa::search::{collect_candidates, rank_candidates, select_top_k, Candidate};

// The similarity scores are handed to the library as order-preserving integer
// keys; these helpers do the floating-point side the way the application does.

fn cosine(a: &[f64], b: &[f64]) -> f64 {
    if a.len() != b.len() {
        return 0.0;
    }
    let dot: f64 = a.iter().zip(b.iter()).map(|(x, y)| x * y).sum();
    let na: f64 = a.iter().map(|x| x * x).sum::<f64>().sqrt();
    let nb: f64 = b.iter().map(|x| x * x).sum::<f64>().sqrt();
    if na == 0.0 || nb == 0.0 {
        return 0.0;
    }
    dot / (na * nb)
}

fn sim_key(x: f64) -> u64 {
    let b = x.to_bits();
    if b >> 63 == 1 {
        !b
    } else {
        b | 0x8000_0000_0000_0000
    }
}

fn key_sim(k: u64) -> f64 {
    if k & 0x8000_0000_0000_0000 != 0 {
        f64::from_bits(k & 0x7FFF_FFFF_FFFF_FFFF)
    } else {
        f64::from_bits(!k)
    }
}

fn embedding(tokens: &[&str]) -> Embedding {
    Embedding(tokens.iter().map(|t| t.as_bytes().to_vec()).collect())
}

fn candidate_vector(c: &Candidate) -> Vec<f64> {
    c.embedding
        .0
        .iter()
        .map(|t| String::from_utf8(t.clone()).unwrap().parse::<f64>().unwrap())
        .collect()
}

fn scenario_entries() -> Vec<IndexFileEntry> {
    vec![
        IndexFileEntry::Repository(RepositoryEntry {
            path: b"/r".to_vec(),
            commit: b"c1".to_vec(),
            chunk_window_size: 2,
            chunk_step_size: 1,
            include_files: vec![],
            exclude_files: vec![],
        }),
        IndexFileEntry::Chunk(ChunkEntry {
            path: b"a.txt".to_vec(),
            line: 0,
            embedding: embedding(&["1", "0"]),
        }),
        IndexFileEntry::Chunk(ChunkEntry {
            path: b"a.txt".to_vec(),
            line: 1,
            embedding: embedding(&["0", "1"]),
        }),
    ]
}

#[test]
fn test_search_scenario() {
    let entries = scenario_entries();
    let filter = GlobPathFilter { include_files: vec![], exclude_files: vec![] };
    let candidates = collect_candidates(&entries, &filter).unwrap();
    assert_eq!(candidates.len(), 2);
    assert_eq!(candidates[0].repository_path, b"/r".to_vec());
    assert_eq!(candidates[0].chunk_window_size, 2);

    let query = [1.0, 0.0];
    let keys: Vec<u64> =
        candidates.iter().map(|c| sim_key(cosine(&query, &candidate_vector(c)))).collect();
    let results = rank_candidates(&candidates, &keys, 1, sim_key(0.5));
    assert_eq!(results.len(), 1);
    assert_eq!(results[0].file_path, b"a.txt".to_vec());
    assert_eq!(results[0].line, 0);
    assert_eq!(key_sim(results[0].similarity), 1.0);
}

#[test]
fn test_search_respects_filter() {
    let entries = scenario_entries();
    let filter = GlobPathFilter {
        include_files: vec![GlobPathPattern::new(b"*.md")],
        exclude_files: vec![],
    };
    let candidates = collect_candidates(&entries, &filter).unwrap();
    assert_eq!(candidates.len(), 0);
}

#[test]
fn test_search_rejects_orphan_chunk() {
    let entries = vec![IndexFileEntry::Chunk(ChunkEntry {
        path: b"a.txt".to_vec(),
        line: 0,
        embedding: embedding(&["1"]),
    })];
    let filter = GlobPathFilter { include_files: vec![], exclude_files: vec![] };
    assert!(collect_candidates(&entries, &filter).is_err());
}

#[test]
fn test_top_k_bounds_threshold_and_order() {
    // keys: index 0..6; count 3; threshold 10
    let keys: Vec<u64> = vec![50, 10, 70, 50, 5, 60];
    let sel = select_top_k(&keys, 3, 10);
    // the three largest above 10 are 70 (idx 2), 60 (idx 5), 50 (tie: idx 0
    // before idx 3)
    assert_eq!(sel, vec![2usize, 5, 0]);

    // never more than count results, all strictly above the threshold
    let sel2 = select_top_k(&keys, 10, 50);
    assert_eq!(sel2, vec![2usize, 5]);

    let sel3 = select_top_k(&keys, 0, 0);
    assert!(sel3.is_empty());
}

#[test]
fn test_top_k_tie_prefers_earlier() {
    let keys: Vec<u64> = vec![40, 40, 40];
    let sel = select_top_k(&keys, 2, 0);
    assert_eq!(sel, vec![0usize, 1]);
}
