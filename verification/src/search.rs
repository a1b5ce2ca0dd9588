//! Searching the log: one forward scan groups chunks under their repository
//! and filters them by absolute path; a bounded top-K selection then keeps
//! the best-scoring chunks above a threshold.
//!
//! Similarity scores enter as order-preserving integer keys: the caller maps
//! each cosine score to a key such that a higher score gives a strictly
//! larger key, and the contracts here speak of the keys alone.

use vstd::prelude::*;

use crate::bytes::copy_bytes;
use crate::glob::{GlobPathFilter, spec_should_include};
use crate::index_file::{
    Embedding, IndexError, IndexFileEntry, IndexFileEntryModel, RepositoryEntryModel,
};

verus! {

broadcast use crate::bytes::lemma_vec_u8_deep_view;

// ---------------------------------------------------------------------------
// Path joining
// ---------------------------------------------------------------------------

/// How a repository root and a relative file path combine: an absolute right
/// side replaces the base, and exactly one slash separates the two otherwise.
pub open spec fn spec_join_path(base: Seq<u8>, rel: Seq<u8>) -> Seq<u8> {
    if rel.len() > 0 && rel[0] == 0x2F {
        rel
    } else if base.len() == 0 || base.last() == 0x2F {
        base + rel
    } else {
        base + seq![0x2Fu8] + rel
    }
}

pub fn join_path(base: &[u8], rel: &[u8]) -> (r: Vec<u8>)
    ensures
        r@ == spec_join_path(base@, rel@),
{
    let mut out: Vec<u8> = Vec::new();
    if rel.len() > 0 && rel[0] == 0x2F {
        let mut k: usize = 0;
        while k < rel.len()
            invariant
                k <= rel@.len(),
                out@ == rel@.subrange(0, k as int),
            decreases rel@.len() - k,
        {
            out.push(rel[k]);
            proof {
                assert(out@ =~= rel@.subrange(0, k + 1));
            }
            k = k + 1;
        }
        proof {
            assert(rel@.subrange(0, rel@.len() as int) =~= rel@);
        }
        return out;
    }
    let mut k: usize = 0;
    while k < base.len()
        invariant
            k <= base@.len(),
            out@ == base@.subrange(0, k as int),
        decreases base@.len() - k,
    {
        out.push(base[k]);
        proof {
            assert(out@ =~= base@.subrange(0, k + 1));
        }
        k = k + 1;
    }
    proof {
        assert(base@.subrange(0, base@.len() as int) =~= base@);
    }
    if !(base.len() == 0 || base[base.len() - 1] == 0x2F) {
        out.push(0x2F);
    }
    let ghost mid = out@;
    let mut k2: usize = 0;
    while k2 < rel.len()
        invariant
            k2 <= rel@.len(),
            out@ == mid + rel@.subrange(0, k2 as int),
        decreases rel@.len() - k2,
    {
        out.push(rel[k2]);
        proof {
            assert(out@ =~= mid + rel@.subrange(0, k2 + 1));
        }
        k2 = k2 + 1;
    }
    proof {
        assert(rel@.subrange(0, rel@.len() as int) =~= rel@);
        assert(out@ =~= spec_join_path(base@, rel@));
    }
    out
}

// ---------------------------------------------------------------------------
// Candidate collection
// ---------------------------------------------------------------------------

/// The repository that governs position `i`: the nearest repository record at
/// an index below `i`.
pub open spec fn last_repo(entries: Seq<IndexFileEntryModel>, i: int) -> Option<
    RepositoryEntryModel,
>
    decreases i,
{
    if i <= 0 || i > entries.len() {
        None
    } else {
        match entries[i - 1] {
            IndexFileEntryModel::Repository(r) => Some(r),
            IndexFileEntryModel::Chunk(_) => last_repo(entries, i - 1),
        }
    }
}

/// Every chunk record has a preceding repository record.
pub open spec fn no_orphan_chunks(entries: Seq<IndexFileEntryModel>) -> bool {
    forall|i: int|
        0 <= i < entries.len() && (#[trigger] entries[i]) is Chunk ==> last_repo(entries, i)
            is Some
}

/// The mathematical content of a search candidate.
pub struct CandidateModel {
    pub repository_path: Seq<u8>,
    pub chunk_window_size: int,
    pub file_path: Seq<u8>,
    pub line: int,
    pub embedding: Seq<Seq<u8>>,
}

/// A chunk that survived grouping and path filtering, ready to be scored.
pub struct Candidate {
    pub repository_path: Vec<u8>,
    pub chunk_window_size: usize,
    pub file_path: Vec<u8>,
    pub line: usize,
    pub embedding: Embedding,
}

impl View for Candidate {
    type V = CandidateModel;

    open spec fn view(&self) -> CandidateModel {
        CandidateModel {
            repository_path: self.repository_path@,
            chunk_window_size: self.chunk_window_size as int,
            file_path: self.file_path@,
            line: self.line as int,
            embedding: self.embedding@,
        }
    }
}

impl DeepView for Candidate {
    type V = CandidateModel;

    open spec fn deep_view(&self) -> CandidateModel {
        self.view()
    }
}

/// The candidates of a log prefix, in scan order: each chunk whose absolute
/// path passes the filter, tagged with its governing repository.
pub open spec fn spec_candidates(
    entries: Seq<IndexFileEntryModel>,
    f: crate::glob::GlobFilterModel,
) -> Seq<CandidateModel>
    decreases entries.len(),
{
    if entries.len() == 0 {
        Seq::empty()
    } else {
        let pre = spec_candidates(entries.drop_last(), f);
        match entries.last() {
            IndexFileEntryModel::Repository(_) => pre,
            IndexFileEntryModel::Chunk(c) => match last_repo(entries, entries.len() - 1) {
                Option::None => pre,
                Option::Some(r) => if spec_should_include(
                    f,
                    spec_join_path(r.path, c.path),
                ) {
                    pre.push(
                        CandidateModel {
                            repository_path: r.path,
                            chunk_window_size: r.chunk_window_size,
                            file_path: c.path,
                            line: c.line,
                            embedding: c.embedding,
                        },
                    )
                } else {
                    pre
                },
            },
        }
    }
}

pub proof fn lemma_last_repo_prefix(entries: Seq<IndexFileEntryModel>, m: int, i: int)
    requires
        0 <= i <= m <= entries.len(),
    ensures
        last_repo(entries.take(m), i) == last_repo(entries, i),
    decreases i,
{
    if 0 < i {
        assert(entries.take(m)[i - 1] == entries[i - 1]);
        if !(entries[i - 1] is Repository) {
            lemma_last_repo_prefix(entries, m, i - 1);
        }
    }
}

/// Scans the log once, checking the grouping invariant and keeping the chunks
/// whose absolute path passes the filter. Fails exactly when some chunk has
/// no preceding repository record.
#[verifier::rlimit(100)]
pub fn collect_candidates(entries: &Vec<IndexFileEntry>, filter: &GlobPathFilter) -> (r: Result<
    Vec<Candidate>,
    IndexError,
>)
    requires
        filter@.wf(),
    ensures
        match r {
            Ok(cands) => no_orphan_chunks(entries.deep_view()) && cands.deep_view()
                == spec_candidates(entries.deep_view(), filter@),
            Err(e) => e == IndexError::ChunkBeforeRepository && !no_orphan_chunks(
                entries.deep_view(),
            ),
        },
{
    let ghost es = entries.deep_view();
    let mut cands: Vec<Candidate> = Vec::new();
    let mut cur: Option<usize> = None;
    let mut i: usize = 0;
    while i < entries.len()
        invariant
            i <= entries@.len(),
            es == entries.deep_view(),
            filter@.wf(),
            cands.deep_view() == spec_candidates(es.take(i as int), filter@),
            match cur {
                Option::None => last_repo(es, i as int) is None,
                Option::Some(ci) => ci < i && es[ci as int] is Repository && last_repo(
                    es,
                    i as int,
                ) == Some(es[ci as int]->Repository_0),
            },
            forall|k: int| 0 <= k < i && (#[trigger] es[k]) is Chunk ==> last_repo(es, k) is Some,
        decreases entries@.len() - i,
    {
        proof {
            assert(es[i as int] == entries@[i as int]@);
            assert(es.take(i + 1).drop_last() =~= es.take(i as int));
            assert(es.take(i + 1).last() == es[i as int]);
            lemma_last_repo_prefix(es, i + 1, i as int);
        }
        match &entries[i] {
            IndexFileEntry::Repository(_) => {
                cur = Some(i);
            },
            IndexFileEntry::Chunk(c) => {
                match cur {
                    None => {
                        proof {
                            assert(!no_orphan_chunks(es)) by {
                                assert(es[i as int] is Chunk && last_repo(es, i as int) is None);
                            }
                        }
                        return Err(IndexError::ChunkBeforeRepository);
                    },
                    Some(ci) => {
                        let repo = match &entries[ci] {
                            IndexFileEntry::Repository(r) => r,
                            IndexFileEntry::Chunk(_) => {
                                proof {
                                    assert(false);
                                }
                                return Err(IndexError::ChunkBeforeRepository);
                            },
                        };
                        let abs = join_path(repo.path.as_slice(), c.path.as_slice());
                        let ghost cands0 = cands.deep_view();
                        if filter.should_include(abs.as_slice()) {
                            let mut emb: Vec<Vec<u8>> = Vec::new();
                            let mut k: usize = 0;
                            while k < c.embedding.0.len()
                                invariant
                                    k <= c.embedding.0@.len(),
                                    emb@.len() == k,
                                    forall|t: int|
                                        0 <= t < k ==> #[trigger] emb@[t]@ == c.embedding.0@[t]@,
                                decreases c.embedding.0@.len() - k,
                            {
                                emb.push(copy_bytes(&c.embedding.0[k]));
                                k = k + 1;
                            }
                            proof {
                                assert(emb.deep_view() =~~= c.embedding@);
                            }
                            cands.push(
                                Candidate {
                                    repository_path: copy_bytes(&repo.path),
                                    chunk_window_size: repo.chunk_window_size,
                                    file_path: copy_bytes(&c.path),
                                    line: c.line,
                                    embedding: Embedding(emb),
                                },
                            );
                            proof {
                                assert(cands.deep_view() =~~= cands0.push(
                                    spec_candidates(es.take(i + 1), filter@).last(),
                                ));
                                assert(cands.deep_view() =~~= spec_candidates(
                                    es.take(i + 1),
                                    filter@,
                                ));
                            }
                        } else {
                            proof {
                                assert(cands.deep_view() =~~= spec_candidates(
                                    es.take(i + 1),
                                    filter@,
                                ));
                            }
                        }
                    },
                }
            },
        }
        i = i + 1;
    }
    proof {
        assert(es.take(es.len() as int) =~= es);
    }
    Ok(cands)
}

// ---------------------------------------------------------------------------
// Bounded top-K selection
// ---------------------------------------------------------------------------

/// The strict priority order on candidate indices: a strictly larger key
/// wins, and between equal keys the earlier scan position wins.
pub open spec fn precedes(keys: Seq<u64>, a: int, b: int) -> bool {
    keys[a] > keys[b] || (keys[a] == keys[b] && a < b)
}

/// Selects the indices of the at most `count` best-keyed entries strictly
/// above `threshold`, in priority order. The result is exactly the top of the
/// ranking: any unselected index above the threshold loses, under `precedes`,
/// against every selected one, and only because the bound is full.
#[verifier::rlimit(100)]
#[verifier::spinoff_prover]
pub fn select_top_k(keys: &Vec<u64>, count: usize, threshold: u64) -> (r: Vec<usize>)
    ensures
        r@.len() <= count,
        forall|i: int|
            0 <= i < r@.len() ==> (#[trigger] r@[i]) < keys@.len() && keys@[r@[i] as int]
                > threshold,
        forall|i: int, j: int|
            0 <= i < j < r@.len() ==> precedes(keys@, #[trigger] r@[i] as int, #[trigger] r@[j] as int),
        forall|q: int|
            0 <= q < keys@.len() && keys@[q] > threshold && !r@.contains(q as usize) ==> r@.len()
                == count && (forall|i: int|
                0 <= i < r@.len() ==> precedes(keys@, #[trigger] r@[i] as int, q)),
{
    let mut sel: Vec<usize> = Vec::new();
    if count == 0 {
        return sel;
    }
    let mut floor = threshold;
    let mut m: usize = 0;
    while m < keys.len()
        invariant
            m <= keys@.len(),
            count >= 1,
            sel@.len() <= count,
            threshold <= floor,
            sel@.len() < count ==> floor == threshold,
            floor == threshold || (sel@.len() == count && keys@[sel@[sel@.len() - 1] as int]
                == floor),
            forall|i: int|
                0 <= i < sel@.len() ==> (#[trigger] sel@[i]) < m && keys@[sel@[i] as int]
                    > threshold && keys@[sel@[i] as int] >= floor,
            forall|i: int, j: int|
                0 <= i < j < sel@.len() ==> precedes(keys@, #[trigger] sel@[i] as int, #[trigger] sel@[j] as int),
            forall|q: int|
                0 <= q < m && keys@[q] > threshold && !sel@.contains(q as usize) ==> sel@.len()
                    == count && keys@[q] <= floor && (forall|i: int|
                    0 <= i < sel@.len() ==> precedes(keys@, #[trigger] sel@[i] as int, q)),
        decreases keys@.len() - m,
    {
        let kj = keys[m];
        if kj > floor {
            let mut pos: usize = 0;
            while pos < sel.len() && keys[sel[pos]] >= kj
                invariant
                    pos <= sel@.len(),
                    forall|i: int|
                        0 <= i < sel@.len() ==> (#[trigger] sel@[i]) < keys@.len(),
                    forall|i: int| 0 <= i < pos ==> keys@[#[trigger] sel@[i] as int] >= kj,
                decreases sel@.len() - pos,
            {
                pos = pos + 1;
            }
            let ghost sel0 = sel@;
            let ghost posg = pos as int;
            let ghost floor0 = floor;
            sel.insert(pos, m);
            let ghost sel1 = sel@;
            proof {
                assert(sel1 =~= sel0.subrange(0, posg) + seq![m] + sel0.subrange(
                    posg,
                    sel0.len() as int,
                ));
                assert(sel1[posg] == m);
                assert(forall|i: int| 0 <= i < posg ==> #[trigger] sel1[i] == sel0[i]);
                assert(forall|i: int| posg < i < sel1.len() ==> #[trigger] sel1[i] == sel0[i - 1]);
                assert forall|v: usize| sel0.contains(v) implies sel1.contains(v) by {
                    let w = choose|w: int| 0 <= w < sel0.len() && sel0[w] == v;
                    if w < posg {
                        assert(sel1[w] == v);
                    } else {
                        assert(sel1[w + 1] == v);
                    }
                }
                assert forall|i: int| 0 <= i < sel1.len() implies (#[trigger] sel1[i]) < m + 1
                    && keys@[sel1[i] as int] > threshold by {
                    if i == posg {
                        assert(sel1[i] == m);
                    }
                }
                assert forall|i: int, j: int| 0 <= i < j < sel1.len() implies precedes(
                    keys@,
                    #[trigger] sel1[i] as int,
                    #[trigger] sel1[j] as int,
                ) by {
                    if j < posg {
                        assert(precedes(keys@, sel0[i] as int, sel0[j] as int));
                    } else if i > posg {
                        assert(precedes(keys@, sel0[i - 1] as int, sel0[j - 1] as int));
                    } else if i < posg && j == posg {
                        assert(keys@[sel0[i] as int] >= kj);
                        assert(sel0[i] < m);
                    } else if i == posg && j > posg {
                        assert(sel1[j] == sel0[j - 1]);
                        assert(keys@[sel0[j - 1] as int] < kj) by {
                            assert(keys@[sel0[posg] as int] < kj);
                            if j - 1 > posg {
                                assert(precedes(keys@, sel0[posg] as int, sel0[j - 1] as int));
                            }
                        }
                    } else {
                        assert(i < posg && j > posg);
                        assert(sel1[i] == sel0[i] && sel1[j] == sel0[j - 1]);
                        assert(precedes(keys@, sel0[i] as int, sel0[j - 1] as int));
                    }
                }
            }
            if sel.len() > count {
                let evicted = match sel.pop() {
                    Some(v) => v,
                    None => {
                        proof {
                            assert(false);
                        }
                        0
                    },
                };
                floor = keys[sel[sel.len() - 1]];
                proof {
                    assert(sel@ =~= sel1.drop_last());
                    assert(sel1[sel1.len() - 1] == evicted);
                    assert(sel@.len() == count);
                    let last = sel@[sel@.len() - 1];
                    assert(keys@[last as int] == floor);
                    assert(keys@[last as int] > threshold);
                    // the floor never goes down
                    assert(floor >= floor0) by {
                        if posg < sel1.len() - 1 {
                            if posg == sel@.len() - 1 {
                                assert(last == m);
                            } else {
                                assert(last == sel0[sel@.len() - 2]);
                                assert(floor0 == threshold || keys@[sel0[sel0.len() - 1] as int]
                                    == floor0);
                                if floor0 != threshold {
                                    assert(precedes(
                                        keys@,
                                        sel0[sel@.len() - 2] as int,
                                        sel0[sel0.len() - 1] as int,
                                    ));
                                }
                            }
                        } else {
                            assert(last == sel0[sel0.len() - 1]);
                        }
                    }
                    assert forall|i: int| 0 <= i < sel@.len() implies keys@[
                        #[trigger] sel@[i] as int] >= floor by {
                        if i < sel@.len() - 1 {
                            assert(precedes(keys@, sel1[i] as int, sel1[sel@.len() - 1] as int));
                        }
                    }
                    assert(keys@[evicted as int] <= floor) by {
                        assert(precedes(keys@, sel1[sel1.len() - 2] as int, sel1[sel1.len()
                            - 1] as int));
                    }
                    assert forall|q: int|
                        0 <= q < m + 1 && keys@[q] > threshold && !sel@.contains(q as usize)
                            implies sel@.len() == count && keys@[q] <= floor && (forall|i: int|
                        0 <= i < sel@.len() ==> precedes(keys@, #[trigger] sel@[i] as int, q)) by {
                        if q == evicted as int && (forall|w: int|
                            0 <= w < sel@.len() ==> sel@[w] != evicted) {
                            assert forall|i: int| 0 <= i < sel@.len() implies precedes(
                                keys@,
                                #[trigger] sel@[i] as int,
                                q,
                            ) by {
                                assert(precedes(keys@, sel1[i] as int, sel1[sel1.len() - 1] as int));
                            }
                        } else if q == m as int {
                            if posg < sel1.len() - 1 {
                                assert(sel@[posg] == m);
                                assert(sel@.contains(m));
                                assert(false);
                            } else {
                                assert(evicted == m);
                                assert forall|i: int| 0 <= i < sel@.len() implies precedes(
                                    keys@,
                                    #[trigger] sel@[i] as int,
                                    q,
                                ) by {
                                    assert(precedes(keys@, sel1[i] as int, sel1[sel1.len()
                                        - 1] as int));
                                }
                                assert(keys@[q] <= floor) by {
                                    assert(keys@[evicted as int] <= floor);
                                }
                            }
                        } else {
                            assert(q < m);
                            if sel0.contains(q as usize) {
                                let w = choose|w: int| 0 <= w < sel0.len() && sel0[w] == q;
                                if w < posg {
                                    if w < sel@.len() {
                                        assert(sel@[w] == q as usize);
                                        assert(sel@.contains(q as usize));
                                        assert(false);
                                    } else {
                                        assert(w == sel1.len() - 1);
                                        assert(posg == sel1.len());
                                        assert(false);
                                    }
                                } else {
                                    assert(sel1[w + 1] == q as usize);
                                    if w + 1 < sel1.len() - 1 {
                                        assert(sel@[w + 1] == q as usize);
                                        assert(sel@.contains(q as usize));
                                        assert(false);
                                    } else {
                                        assert(evicted == q as usize);
                                        assert forall|i: int| 0 <= i < sel@.len() implies precedes(
                                            keys@,
                                            #[trigger] sel@[i] as int,
                                            q,
                                        ) by {
                                            assert(precedes(
                                                keys@,
                                                sel1[i] as int,
                                                sel1[sel1.len() - 1] as int,
                                            ));
                                        }
                                        assert(keys@[q] <= floor);
                                    }
                                }
                            } else {
                                assert(sel0.len() == count && keys@[q] <= floor0 && (forall|i: int|
                                    0 <= i < sel0.len() ==> precedes(
                                        keys@,
                                        #[trigger] sel0[i] as int,
                                        q,
                                    )));
                                assert(keys@[q] <= floor);
                                assert forall|i: int| 0 <= i < sel@.len() implies precedes(
                                    keys@,
                                    #[trigger] sel@[i] as int,
                                    q,
                                ) by {
                                    if i < posg {
                                        assert(sel@[i] == sel0[i]);
                                    } else if i > posg {
                                        assert(sel@[i] == sel1[i] && sel1[i] == sel0[i - 1]);
                                    } else {
                                        assert(sel@[i] == m);
                                        assert(keys@[q] <= floor0 < kj);
                                    }
                                }
                            }
                        }
                    }
                }
            }
        } else {
            proof {
                if kj > threshold {
                    assert(floor > threshold);
                    assert(sel@.len() == count);
                    assert forall|i: int| 0 <= i < sel@.len() implies precedes(
                        keys@,
                        #[trigger] sel@[i] as int,
                        m as int,
                    ) by {
                        assert(keys@[sel@[i] as int] >= floor >= kj);
                        if keys@[sel@[i] as int] == kj {
                            assert(sel@[i] < m);
                        }
                    }
                    assert(!sel@.contains(m)) by {
                        if sel@.contains(m) {
                            let w = choose|w: int| 0 <= w < sel@.len() && sel@[w] == m;
                            assert(sel@[w] < m);
                        }
                    }
                }
            }
        }
        m = m + 1;
    }
    sel
}

/// A search result: where the matching chunk lives and its similarity key.
pub struct MatchedChunk {
    pub repository_path: Vec<u8>,
    pub chunk_window_size: usize,
    pub file_path: Vec<u8>,
    pub line: usize,
    pub similarity: u64,
}

/// Some scored candidate accounts for this result.
pub open spec fn matches_some(rm: MatchedChunk, cands: Seq<Candidate>, keys: Seq<u64>) -> bool {
    exists|q: int| 0 <= q < cands.len() && is_match_of(rm, cands[q]@, #[trigger] keys[q])
}

/// Some result accounts for this scored candidate.
pub open spec fn result_holds(results: Seq<MatchedChunk>, c: CandidateModel, key: u64) -> bool {
    exists|i: int| 0 <= i < results.len() && is_match_of(#[trigger] results[i], c, key)
}

/// A result carries a candidate's location data and that candidate's key.
pub open spec fn is_match_of(r: MatchedChunk, c: CandidateModel, key: u64) -> bool {
    &&& r.repository_path@ == c.repository_path
    &&& r.chunk_window_size as int == c.chunk_window_size
    &&& r.file_path@ == c.file_path
    &&& r.line as int == c.line
    &&& r.similarity == key
}

/// Ranks scored candidates: at most `count` results, every similarity key
/// strictly above `threshold`, keys non-increasing with earlier candidates
/// first among equals, and exactly the best candidates are kept.
#[verifier::rlimit(100)]
pub fn rank_candidates(
    candidates: &Vec<Candidate>,
    keys: &Vec<u64>,
    count: usize,
    threshold: u64,
) -> (r: Vec<MatchedChunk>)
    requires
        keys@.len() == candidates@.len(),
    ensures
        r@.len() <= count,
        forall|i: int| 0 <= i < r@.len() ==> (#[trigger] r@[i]).similarity > threshold,
        forall|i: int, j: int|
            0 <= i < j < r@.len() ==> (#[trigger] r@[i]).similarity >= (#[trigger] r@[j]).similarity,
        forall|i: int| 0 <= i < r@.len() ==> matches_some(#[trigger] r@[i], candidates@, keys@),
        r@.len() < count ==> forall|q: int|
            0 <= q < keys@.len() ==> #[trigger] keys@[q] <= threshold || result_holds(
                r@,
                candidates@[q]@,
                keys@[q],
            ),
{
    let kn = keys.len();
    let sel = select_top_k(keys, count, threshold);
    let mut r: Vec<MatchedChunk> = Vec::new();
    let mut i: usize = 0;
    while i < sel.len()
        invariant
            i <= sel@.len(),
            kn == keys@.len(),
            keys@.len() == candidates@.len(),
            sel@.len() <= count,
            r@.len() == i,
            forall|t: int|
                0 <= t < sel@.len() ==> (#[trigger] sel@[t]) < keys@.len() && keys@[sel@[t] as int]
                    > threshold,
            forall|t: int, u: int|
                0 <= t < u < sel@.len() ==> precedes(keys@, #[trigger] sel@[t] as int, #[trigger] sel@[u] as int),
            forall|q: int|
                0 <= q < keys@.len() && keys@[q] > threshold && !sel@.contains(q as usize)
                    ==> sel@.len() == count,
            forall|t: int|
                0 <= t < i ==> is_match_of(
                    #[trigger] r@[t],
                    candidates@[sel@[t] as int]@,
                    keys@[sel@[t] as int],
                ),
        decreases sel@.len() - i,
    {
        let q = sel[i];
        let c = &candidates[q];
        r.push(
            MatchedChunk {
                repository_path: copy_bytes(&c.repository_path),
                chunk_window_size: c.chunk_window_size,
                file_path: copy_bytes(&c.file_path),
                line: c.line,
                similarity: keys[q],
            },
        );
        i = i + 1;
    }
    proof {
        assert forall|t: int| 0 <= t < r@.len() implies (#[trigger] r@[t]).similarity
            > threshold by {
            assert(is_match_of(r@[t], candidates@[sel@[t] as int]@, keys@[sel@[t] as int]));
        }
        assert forall|t: int, u: int| 0 <= t < u < r@.len() implies (#[trigger] r@[t]).similarity
            >= (#[trigger] r@[u]).similarity by {
            assert(precedes(keys@, sel@[t] as int, sel@[u] as int));
            assert(is_match_of(r@[t], candidates@[sel@[t] as int]@, keys@[sel@[t] as int]));
            assert(is_match_of(r@[u], candidates@[sel@[u] as int]@, keys@[sel@[u] as int]));
            assert(r@[t].similarity == keys@[sel@[t] as int]);
            assert(r@[u].similarity == keys@[sel@[u] as int]);
        }
        assert forall|t: int| 0 <= t < r@.len() implies matches_some(
            #[trigger] r@[t],
            candidates@,
            keys@,
        ) by {
            assert(is_match_of(r@[t], candidates@[sel@[t] as int]@, keys@[sel@[t] as int]));
        }
        if r@.len() < count {
            assert forall|q: int| 0 <= q < keys@.len() implies keys@[q] <= threshold
                || result_holds(r@, candidates@[q]@, keys@[q]) by {
                if keys@[q] > threshold {
                    assert(q as usize as int == q) by {
                        assert(q < kn as int);
                    }
                    assert(sel@.contains(q as usize)) by {
                        if !sel@.contains(q as usize) {
                            assert(sel@.len() == count);
                        }
                    }
                    let w = choose|w: int| 0 <= w < sel@.len() && sel@[w] == q as usize;
                    assert(is_match_of(r@[w], candidates@[q]@, keys@[q]));
                }
            }
        }
    }
    r
}

} // verus!
