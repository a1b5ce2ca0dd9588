//! The index log's records: repository sections and embedded chunks, with
//! their strict one-line JSON serialization, the deterministic scanner that
//! reads one back, and the proof that parsing inverts serialization.

use vstd::prelude::*;

use crate::glob::{GlobPathPattern, GlobPatternModel, spec_compile, lemma_compile_wf,
    lemma_pattern_text_roundtrip};
use crate::json::{spec_json_string, spec_decimal, string_scan, usize_end, dec_value, number_end,
    is_number_token, lit_at, continues_number, is_digit, push_json_string, push_decimal,
    parse_string, parse_usize, parse_number, expect_lit, lemma_string_scan_roundtrip,
    lemma_usize_end_embed, lemma_number_end_embed, lemma_spec_decimal_chars};

verus! {

broadcast use crate::bytes::lemma_vec_u8_deep_view;

// ---------------------------------------------------------------------------
// Records and their models
// ---------------------------------------------------------------------------

/// What can go wrong when working over a scanned log.
#[derive(Debug, PartialEq, Eq, Structural)]
pub enum IndexError {
    /// A chunk record appeared before any repository record.
    ChunkBeforeRepository,
    /// The named repository has no record in the log.
    RepositoryNotFound,
}

/// A fixed-dimension vector of real numbers, each held as its literal JSON
/// number token so that reading and rewriting the log never changes a value.
pub struct Embedding(pub Vec<Vec<u8>>);

impl View for Embedding {
    type V = Seq<Seq<u8>>;

    open spec fn view(&self) -> Seq<Seq<u8>> {
        self.0.deep_view()
    }
}

/// Every component is a well-formed JSON number token.
pub open spec fn embedding_wf(e: Seq<Seq<u8>>) -> bool {
    forall|i: int| 0 <= i < e.len() ==> is_number_token(#[trigger] e[i])
}

/// The mathematical content of a repository record.
pub struct RepositoryEntryModel {
    pub path: Seq<u8>,
    pub commit: Seq<u8>,
    pub chunk_window_size: int,
    pub chunk_step_size: int,
    pub include_files: Seq<GlobPatternModel>,
    pub exclude_files: Seq<GlobPatternModel>,
}

impl RepositoryEntryModel {
    pub open spec fn wf(self) -> bool {
        &&& 1 <= self.chunk_window_size <= usize::MAX
        &&& 1 <= self.chunk_step_size <= usize::MAX
        &&& forall|i: int|
            0 <= i < self.include_files.len() ==> (#[trigger] self.include_files[i]).wf()
        &&& forall|i: int|
            0 <= i < self.exclude_files.len() ==> (#[trigger] self.exclude_files[i]).wf()
    }
}

/// The mathematical content of a chunk record.
pub struct ChunkEntryModel {
    pub path: Seq<u8>,
    pub line: int,
    pub embedding: Seq<Seq<u8>>,
}

impl ChunkEntryModel {
    pub open spec fn wf(self) -> bool {
        &&& 0 <= self.line <= usize::MAX
        &&& embedding_wf(self.embedding)
    }
}

pub enum IndexFileEntryModel {
    Repository(RepositoryEntryModel),
    Chunk(ChunkEntryModel),
}

impl IndexFileEntryModel {
    pub open spec fn wf(self) -> bool {
        match self {
            IndexFileEntryModel::Repository(m) => m.wf(),
            IndexFileEntryModel::Chunk(m) => m.wf(),
        }
    }
}

/// One repository record: where the repository lives, the commit its chunks
/// were embedded at, and the chunking and filtering parameters frozen when it
/// was added.
pub struct RepositoryEntry {
    pub path: Vec<u8>,
    pub commit: Vec<u8>,
    pub chunk_window_size: usize,
    pub chunk_step_size: usize,
    pub include_files: Vec<GlobPathPattern>,
    pub exclude_files: Vec<GlobPathPattern>,
}

impl View for RepositoryEntry {
    type V = RepositoryEntryModel;

    open spec fn view(&self) -> RepositoryEntryModel {
        RepositoryEntryModel {
            path: self.path@,
            commit: self.commit@,
            chunk_window_size: self.chunk_window_size as int,
            chunk_step_size: self.chunk_step_size as int,
            include_files: self.include_files@.map_values(|p: GlobPathPattern| p@),
            exclude_files: self.exclude_files@.map_values(|p: GlobPathPattern| p@),
        }
    }
}

/// One chunk record: the file it came from (relative to its repository), the
/// zero-based first line of its window, and its embedding.
pub struct ChunkEntry {
    pub path: Vec<u8>,
    pub line: usize,
    pub embedding: Embedding,
}

impl View for ChunkEntry {
    type V = ChunkEntryModel;

    open spec fn view(&self) -> ChunkEntryModel {
        ChunkEntryModel { path: self.path@, line: self.line as int, embedding: self.embedding@ }
    }
}

/// One line of the index log.
pub enum IndexFileEntry {
    Repository(RepositoryEntry),
    Chunk(ChunkEntry),
}

impl View for IndexFileEntry {
    type V = IndexFileEntryModel;

    open spec fn view(&self) -> IndexFileEntryModel {
        match self {
            IndexFileEntry::Repository(e) => IndexFileEntryModel::Repository(e@),
            IndexFileEntry::Chunk(e) => IndexFileEntryModel::Chunk(e@),
        }
    }
}

impl DeepView for IndexFileEntry {
    type V = IndexFileEntryModel;

    open spec fn deep_view(&self) -> IndexFileEntryModel {
        self.view()
    }
}

// ---------------------------------------------------------------------------
// Serialization
// ---------------------------------------------------------------------------

/// The literal `{"type":"repository","path":`.
#[verifier::opaque]
pub open spec fn lit_repo_head() -> Seq<u8> {
    seq![0x7Bu8, 0x22u8, 0x74u8, 0x79u8, 0x70u8, 0x65u8, 0x22u8, 0x3Au8, 0x22u8, 0x72u8, 0x65u8, 0x70u8, 0x6Fu8, 0x73u8, 0x69u8, 0x74u8, 0x6Fu8, 0x72u8, 0x79u8, 0x22u8, 0x2Cu8, 0x22u8, 0x70u8, 0x61u8, 0x74u8, 0x68u8, 0x22u8, 0x3Au8]
}

/// The literal `{"type":"chunk","path":`.
#[verifier::opaque]
pub open spec fn lit_chunk_head() -> Seq<u8> {
    seq![0x7Bu8, 0x22u8, 0x74u8, 0x79u8, 0x70u8, 0x65u8, 0x22u8, 0x3Au8, 0x22u8, 0x63u8, 0x68u8, 0x75u8, 0x6Eu8, 0x6Bu8, 0x22u8, 0x2Cu8, 0x22u8, 0x70u8, 0x61u8, 0x74u8, 0x68u8, 0x22u8, 0x3Au8]
}

/// The literal `,"commit":`.
#[verifier::opaque]
pub open spec fn lit_key_commit() -> Seq<u8> {
    seq![0x2Cu8, 0x22u8, 0x63u8, 0x6Fu8, 0x6Du8, 0x6Du8, 0x69u8, 0x74u8, 0x22u8, 0x3Au8]
}

/// The literal `,"chunk_window_size":`.
#[verifier::opaque]
pub open spec fn lit_key_window() -> Seq<u8> {
    seq![0x2Cu8, 0x22u8, 0x63u8, 0x68u8, 0x75u8, 0x6Eu8, 0x6Bu8, 0x5Fu8, 0x77u8, 0x69u8, 0x6Eu8, 0x64u8, 0x6Fu8, 0x77u8, 0x5Fu8, 0x73u8, 0x69u8, 0x7Au8, 0x65u8, 0x22u8, 0x3Au8]
}

/// The literal `,"chunk_step_size":`.
#[verifier::opaque]
pub open spec fn lit_key_step() -> Seq<u8> {
    seq![0x2Cu8, 0x22u8, 0x63u8, 0x68u8, 0x75u8, 0x6Eu8, 0x6Bu8, 0x5Fu8, 0x73u8, 0x74u8, 0x65u8, 0x70u8, 0x5Fu8, 0x73u8, 0x69u8, 0x7Au8, 0x65u8, 0x22u8, 0x3Au8]
}

/// The literal `,"include_files":`.
#[verifier::opaque]
pub open spec fn lit_key_incl() -> Seq<u8> {
    seq![0x2Cu8, 0x22u8, 0x69u8, 0x6Eu8, 0x63u8, 0x6Cu8, 0x75u8, 0x64u8, 0x65u8, 0x5Fu8, 0x66u8, 0x69u8, 0x6Cu8, 0x65u8, 0x73u8, 0x22u8, 0x3Au8]
}

/// The literal `,"exclude_files":`.
#[verifier::opaque]
pub open spec fn lit_key_excl() -> Seq<u8> {
    seq![0x2Cu8, 0x22u8, 0x65u8, 0x78u8, 0x63u8, 0x6Cu8, 0x75u8, 0x64u8, 0x65u8, 0x5Fu8, 0x66u8, 0x69u8, 0x6Cu8, 0x65u8, 0x73u8, 0x22u8, 0x3Au8]
}

/// The literal `,"line":`.
#[verifier::opaque]
pub open spec fn lit_key_line() -> Seq<u8> {
    seq![0x2Cu8, 0x22u8, 0x6Cu8, 0x69u8, 0x6Eu8, 0x65u8, 0x22u8, 0x3Au8]
}

/// The literal `,"embedding":`.
#[verifier::opaque]
pub open spec fn lit_key_embedding() -> Seq<u8> {
    seq![0x2Cu8, 0x22u8, 0x65u8, 0x6Du8, 0x62u8, 0x65u8, 0x64u8, 0x64u8, 0x69u8, 0x6Eu8, 0x67u8, 0x22u8, 0x3Au8]
}

/// The comma-separated JSON string values of `xs`.
pub open spec fn string_items(xs: Seq<Seq<u8>>) -> Seq<u8>
    decreases xs.len(),
{
    if xs.len() == 0 {
        Seq::empty()
    } else if xs.len() == 1 {
        spec_json_string(xs[0])
    } else {
        string_items(xs.drop_last()) + seq![0x2Cu8] + spec_json_string(xs.last())
    }
}

/// A JSON array of string values.
pub open spec fn spec_string_array(xs: Seq<Seq<u8>>) -> Seq<u8> {
    seq![0x5Bu8] + string_items(xs) + seq![0x5Du8]
}

/// The comma-separated number tokens of `xs`, written verbatim.
pub open spec fn number_items(xs: Seq<Seq<u8>>) -> Seq<u8>
    decreases xs.len(),
{
    if xs.len() == 0 {
        Seq::empty()
    } else if xs.len() == 1 {
        xs[0]
    } else {
        number_items(xs.drop_last()) + seq![0x2Cu8] + xs.last()
    }
}

/// A JSON array of number tokens.
pub open spec fn spec_number_array(xs: Seq<Seq<u8>>) -> Seq<u8> {
    seq![0x5Bu8] + number_items(xs) + seq![0x5Du8]
}

/// The one-line serialization of a repository record.
pub open spec fn spec_serialize_repository(m: RepositoryEntryModel) -> Seq<u8> {
    lit_repo_head() + (spec_json_string(m.path) + (lit_key_commit() + (spec_json_string(m.commit)
        + (lit_key_window() + (spec_decimal(m.chunk_window_size as nat) + (lit_key_step() + (
    spec_decimal(m.chunk_step_size as nat) + (lit_key_incl() + (spec_string_array(
        m.include_files.map_values(|p: GlobPatternModel| p.text()),
    ) + (lit_key_excl() + (spec_string_array(
        m.exclude_files.map_values(|p: GlobPatternModel| p.text()),
    ) + seq![0x7Du8])))))))))))
}

/// The one-line serialization of a chunk record.
pub open spec fn spec_serialize_chunk(m: ChunkEntryModel) -> Seq<u8> {
    lit_chunk_head() + (spec_json_string(m.path) + (lit_key_line() + (spec_decimal(m.line as nat)
        + (lit_key_embedding() + (spec_number_array(m.embedding) + seq![0x7Du8])))))
}

pub open spec fn spec_serialize_entry(m: IndexFileEntryModel) -> Seq<u8> {
    match m {
        IndexFileEntryModel::Repository(r) => spec_serialize_repository(r),
        IndexFileEntryModel::Chunk(c) => spec_serialize_chunk(c),
    }
}

// ---------------------------------------------------------------------------
// The scanner
// ---------------------------------------------------------------------------

/// Clamps a scan position into `[p + 1, s.len()]`; scanners only ever return
/// positions in that range, so this is the identity where it is applied.
pub open spec fn clamp_after(s: Seq<u8>, p: int, q: int) -> int {
    if q <= p {
        p + 1
    } else if q > s.len() {
        s.len() as int
    } else {
        q
    }
}

/// Scans `"x","y",...]` — one or more comma-separated strings and the closing
/// bracket — accumulating the decoded values.
pub open spec fn string_items_scan(s: Seq<u8>, p: int, acc: Seq<Seq<u8>>) -> Option<
    (Seq<Seq<u8>>, int),
>
    decreases s.len() - p,
{
    if !(0 <= p <= s.len()) {
        None
    } else {
        match string_scan(s, p) {
            Option::None => None,
            Option::Some((x, q0)) => {
                let q = clamp_after(s, p, q0);
                if q < s.len() && s[q] == 0x2C {
                    string_items_scan(s, q + 1, acc.push(x))
                } else if q < s.len() && s[q] == 0x5D {
                    Some((acc.push(x), q + 1))
                } else {
                    None
                }
            },
        }
    }
}

/// Scans a whole JSON array of strings starting at `p`.
pub open spec fn string_array_scan(s: Seq<u8>, p: int) -> Option<(Seq<Seq<u8>>, int)> {
    if 0 <= p < s.len() && s[p] == 0x5B {
        if p + 1 < s.len() && s[p + 1] == 0x5D {
            Some((Seq::empty(), p + 2))
        } else {
            string_items_scan(s, p + 1, Seq::empty())
        }
    } else {
        None
    }
}

/// Scans one or more comma-separated number tokens and the closing bracket.
pub open spec fn number_items_scan(s: Seq<u8>, p: int, acc: Seq<Seq<u8>>) -> Option<
    (Seq<Seq<u8>>, int),
>
    decreases s.len() - p,
{
    if !(0 <= p <= s.len()) {
        None
    } else {
        let j = number_end(s, p);
        if j < 0 {
            None
        } else {
            let q = clamp_after(s, p, j);
            let tok = s.subrange(p, q);
            if !is_number_token(tok) {
                None
            } else if q < s.len() && s[q] == 0x2C {
                number_items_scan(s, q + 1, acc.push(tok))
            } else if q < s.len() && s[q] == 0x5D {
                Some((acc.push(tok), q + 1))
            } else {
                None
            }
        }
    }
}

/// Scans a whole JSON array of number tokens starting at `p`.
pub open spec fn number_array_scan(s: Seq<u8>, p: int) -> Option<(Seq<Seq<u8>>, int)> {
    if 0 <= p < s.len() && s[p] == 0x5B {
        if p + 1 < s.len() && s[p + 1] == 0x5D {
            Some((Seq::empty(), p + 2))
        } else {
            number_items_scan(s, p + 1, Seq::empty())
        }
    } else {
        None
    }
}

/// Scans a canonical unsigned decimal and yields its value when it fits in
/// `usize`.
pub open spec fn usize_scan(s: Seq<u8>, p: int) -> Option<(int, int)> {
    let j = usize_end(s, p);
    if j < 0 {
        None
    } else {
        let v = dec_value(s.subrange(p, clamp_after(s, p, j)));
        if v > usize::MAX {
            None
        } else {
            Some((v as int, clamp_after(s, p, j)))
        }
    }
}

/// Scans the fields of a repository record after its head literal; the record
/// must use exactly the canonical field set and order, and fill the line.
pub open spec fn repo_scan(s: Seq<u8>, p0: int) -> Option<IndexFileEntryModel> {
    match string_scan(s, p0) {
        Option::None => None,
        Option::Some((path, p1)) => repo_scan_commit(s, p1, path),
    }
}

pub open spec fn repo_scan_commit(s: Seq<u8>, p1: int, path: Seq<u8>) -> Option<
    IndexFileEntryModel,
> {
    if lit_at(s, p1, lit_key_commit()) {
        match string_scan(s, p1 + lit_key_commit().len()) {
            Option::None => None,
            Option::Some((commit, p2)) => repo_scan_window(s, p2, path, commit),
        }
    } else {
        None
    }
}

pub open spec fn repo_scan_window(s: Seq<u8>, p2: int, path: Seq<u8>, commit: Seq<u8>) -> Option<
    IndexFileEntryModel,
> {
    if lit_at(s, p2, lit_key_window()) {
        match usize_scan(s, p2 + lit_key_window().len()) {
            Option::None => None,
            Option::Some((w, p3)) => if w >= 1 {
                repo_scan_step(s, p3, path, commit, w)
            } else {
                None
            },
        }
    } else {
        None
    }
}

pub open spec fn repo_scan_step(
    s: Seq<u8>,
    p3: int,
    path: Seq<u8>,
    commit: Seq<u8>,
    w: int,
) -> Option<IndexFileEntryModel> {
    if lit_at(s, p3, lit_key_step()) {
        match usize_scan(s, p3 + lit_key_step().len()) {
            Option::None => None,
            Option::Some((st, p4)) => if st >= 1 {
                repo_scan_incl(s, p4, path, commit, w, st)
            } else {
                None
            },
        }
    } else {
        None
    }
}

pub open spec fn repo_scan_incl(
    s: Seq<u8>,
    p4: int,
    path: Seq<u8>,
    commit: Seq<u8>,
    w: int,
    st: int,
) -> Option<IndexFileEntryModel> {
    if lit_at(s, p4, lit_key_incl()) {
        match string_array_scan(s, p4 + lit_key_incl().len()) {
            Option::None => None,
            Option::Some((incl, p5)) => repo_scan_excl(s, p5, path, commit, w, st, incl),
        }
    } else {
        None
    }
}

pub open spec fn repo_scan_excl(
    s: Seq<u8>,
    p5: int,
    path: Seq<u8>,
    commit: Seq<u8>,
    w: int,
    st: int,
    incl: Seq<Seq<u8>>,
) -> Option<IndexFileEntryModel> {
    if lit_at(s, p5, lit_key_excl()) {
        match string_array_scan(s, p5 + lit_key_excl().len()) {
            Option::None => None,
            Option::Some((excl, p6)) => if p6 + 1 == s.len() && s[p6] == 0x7D {
                Some(
                    IndexFileEntryModel::Repository(
                        RepositoryEntryModel {
                            path: path,
                            commit: commit,
                            chunk_window_size: w,
                            chunk_step_size: st,
                            include_files: incl.map_values(|t: Seq<u8>| spec_compile(t)),
                            exclude_files: excl.map_values(|t: Seq<u8>| spec_compile(t)),
                        },
                    ),
                )
            } else {
                None
            },
        }
    } else {
        None
    }
}

/// Scans the fields of a chunk record after its head literal.
pub open spec fn chunk_scan(s: Seq<u8>, p0: int) -> Option<IndexFileEntryModel> {
    match string_scan(s, p0) {
        Option::None => None,
        Option::Some((path, p1)) => if lit_at(s, p1, lit_key_line()) {
            match usize_scan(s, p1 + lit_key_line().len()) {
                Option::None => None,
                Option::Some((line, p2)) => if lit_at(s, p2, lit_key_embedding()) {
                    match number_array_scan(s, p2 + lit_key_embedding().len()) {
                        Option::None => None,
                        Option::Some((emb, p3)) => if p3 + 1 == s.len() && s[p3] == 0x7D {
                            Some(
                                IndexFileEntryModel::Chunk(
                                    ChunkEntryModel { path: path, line: line, embedding: emb },
                                ),
                            )
                        } else {
                            None
                        },
                    }
                } else {
                    None
                },
            }
        } else {
            None
        },
    }
}

/// The deterministic scan of one log line: the record's `type` decides the
/// field set, the fields must appear exactly in canonical order, and the line
/// must hold nothing else.
pub open spec fn entry_scan(s: Seq<u8>) -> Option<IndexFileEntryModel> {
    if lit_at(s, 0, lit_repo_head()) {
        repo_scan(s, lit_repo_head().len() as int)
    } else if lit_at(s, 0, lit_chunk_head()) {
        chunk_scan(s, lit_chunk_head().len() as int)
    } else {
        None
    }
}

// ---------------------------------------------------------------------------
// Round trip: scanning a serialized record gives the record back
// ---------------------------------------------------------------------------

/// Brings the bytes of every field literal into scope.
pub proof fn proof_reveal_lits()
    ensures
        lit_repo_head().len() == 28,
        lit_chunk_head().len() == 23,
        lit_repo_head()[9] == 0x72,
        lit_chunk_head()[9] == 0x63,
        lit_key_commit().len() == 10,
        lit_key_commit()[0] == 0x2C,
        lit_key_window().len() == 21,
        lit_key_window()[0] == 0x2C,
        lit_key_step().len() == 19,
        lit_key_step()[0] == 0x2C,
        lit_key_incl().len() == 17,
        lit_key_incl()[0] == 0x2C,
        lit_key_excl().len() == 17,
        lit_key_excl()[0] == 0x2C,
        lit_key_line().len() == 8,
        lit_key_line()[0] == 0x2C,
        lit_key_embedding().len() == 13,
        lit_key_embedding()[0] == 0x2C,
{
    reveal(lit_repo_head);
    reveal(lit_chunk_head);
    reveal(lit_key_commit);
    reveal(lit_key_window);
    reveal(lit_key_step);
    reveal(lit_key_incl);
    reveal(lit_key_excl);
    reveal(lit_key_line);
    reveal(lit_key_embedding);
}

/// Peels the first piece off a tail decomposition of `s`.
proof fn lemma_peel(s: Seq<u8>, p: int, a: Seq<u8>, rest: Seq<u8>)
    requires
        0 <= p <= s.len(),
        s.subrange(p, s.len() as int) == a + rest,
    ensures
        p + a.len() + rest.len() == s.len(),
        s.subrange(p, p + a.len()) == a,
        s.subrange(p + a.len(), s.len() as int) == rest,
        lit_at(s, p, a),
{
    assert((a + rest).len() == s.len() - p) by {
        assert(s.subrange(p, s.len() as int).len() == s.len() - p);
    }
    assert forall|k: int| 0 <= k < s.len() - p implies s[p + k] == (a + rest)[k] by {
        assert(s.subrange(p, s.len() as int)[k] == s[p + k]);
    }
    assert(s.subrange(p, p + a.len()) =~= a) by {
        assert forall|k: int| 0 <= k < a.len() implies s.subrange(p, p + a.len())[k] == a[k] by {
            assert(s[p + k] == (a + rest)[k]);
            assert((a + rest)[k] == a[k]);
        }
    }
    assert(s.subrange(p + a.len(), s.len() as int) =~= rest) by {
        assert forall|k: int| 0 <= k < rest.len() implies s.subrange(
            p + a.len(),
            s.len() as int,
        )[k] == rest[k] by {
            assert(s[p + a.len() + k] == (a + rest)[a.len() + k]);
            assert((a + rest)[a.len() + k] == rest[k]);
        }
    }
}

proof fn lemma_string_items_first(xs: Seq<Seq<u8>>)
    requires
        xs.len() >= 2,
    ensures
        string_items(xs) == spec_json_string(xs[0]) + seq![0x2Cu8] + string_items(xs.skip(1)),
    decreases xs.len(),
{
    if xs.len() == 2 {
        assert(xs.drop_last() =~= seq![xs[0]]);
        assert(xs.skip(1) =~= seq![xs[1]]);
        assert(string_items(seq![xs[0]]) == spec_json_string(xs[0]));
        assert(string_items(seq![xs[1]]) == spec_json_string(xs[1]));
    } else {
        lemma_string_items_first(xs.drop_last());
        assert(xs.drop_last()[0] == xs[0]);
        assert(xs.drop_last().skip(1) =~= xs.skip(1).drop_last());
        assert(xs.skip(1).last() == xs.last());
        assert(string_items(xs.skip(1)) == string_items(xs.skip(1).drop_last()) + seq![0x2Cu8]
            + spec_json_string(xs.last()));
        assert(string_items(xs) =~= spec_json_string(xs[0]) + seq![0x2Cu8] + string_items(
            xs.skip(1),
        ));
    }
}

proof fn lemma_number_items_first(xs: Seq<Seq<u8>>)
    requires
        xs.len() >= 2,
    ensures
        number_items(xs) == xs[0] + seq![0x2Cu8] + number_items(xs.skip(1)),
    decreases xs.len(),
{
    if xs.len() == 2 {
        assert(xs.drop_last() =~= seq![xs[0]]);
        assert(xs.skip(1) =~= seq![xs[1]]);
        assert(number_items(seq![xs[0]]) == xs[0]);
        assert(number_items(seq![xs[1]]) == xs[1]);
        assert(number_items(xs) =~= xs[0] + seq![0x2Cu8] + xs[1]);
    } else {
        lemma_number_items_first(xs.drop_last());
        assert(xs.drop_last()[0] == xs[0]);
        assert(xs.drop_last().skip(1) =~= xs.skip(1).drop_last());
        assert(xs.skip(1).last() == xs.last());
        assert(number_items(xs.skip(1)) == number_items(xs.skip(1).drop_last()) + seq![0x2Cu8]
            + xs.last());
        assert(number_items(xs) =~= xs[0] + seq![0x2Cu8] + number_items(xs.skip(1)));
    }
}

proof fn lemma_string_items_roundtrip(s: Seq<u8>, p: int, xs: Seq<Seq<u8>>, acc: Seq<Seq<u8>>)
    requires
        0 <= p,
        xs.len() >= 1,
        p + string_items(xs).len() < s.len(),
        s.subrange(p, p + string_items(xs).len()) == string_items(xs),
        s[p + string_items(xs).len()] == 0x5D,
    ensures
        string_items_scan(s, p, acc) == Some((acc + xs, p + string_items(xs).len() + 1)),
    decreases xs.len(),
{
    let items = string_items(xs);
    let x0 = xs[0];
    let js0 = spec_json_string(x0);
    assert forall|k: int| 0 <= k < items.len() implies s[p + k] == items[k] by {
        assert(s.subrange(p, p + items.len())[k] == s[p + k]);
    }
    if xs.len() == 1 {
        assert(items == js0);
        assert(s.subrange(p, p + js0.len()) =~= js0);
        lemma_string_scan_roundtrip(s, p, x0);
        let q = p + js0.len();
        assert(string_scan(s, p) == Some((x0, q)));
        assert(clamp_after(s, p, q) == q);
        assert(s[q] == 0x5D);
        assert(acc + xs =~= acc.push(x0));
    } else {
        lemma_string_items_first(xs);
        assert forall|k: int| 0 <= k < js0.len() implies s[p + k] == js0[k] by {
            assert(items[k] == js0[k]);
        }
        assert(s.subrange(p, p + js0.len()) =~= js0);
        lemma_string_scan_roundtrip(s, p, x0);
        let q = p + js0.len();
        assert(clamp_after(s, p, q) == q);
        assert(s[q] == 0x2C) by {
            assert(items[js0.len() as int] == 0x2C);
        }
        let rest = string_items(xs.skip(1));
        assert(s.subrange(q + 1, q + 1 + rest.len()) =~= rest) by {
            assert forall|k: int| 0 <= k < rest.len() implies s[q + 1 + k] == rest[k] by {
                assert(items[js0.len() + 1 + k] == rest[k]);
            }
        }
        assert(s[q + 1 + rest.len()] == 0x5D) by {
            assert(p + items.len() == q + 1 + rest.len());
        }
        lemma_string_items_roundtrip(s, q + 1, xs.skip(1), acc.push(x0));
        assert(acc.push(x0) + xs.skip(1) =~= acc + xs);
    }
}

proof fn lemma_number_items_roundtrip(s: Seq<u8>, p: int, xs: Seq<Seq<u8>>, acc: Seq<Seq<u8>>)
    requires
        0 <= p,
        xs.len() >= 1,
        forall|i: int| 0 <= i < xs.len() ==> is_number_token(#[trigger] xs[i]),
        p + number_items(xs).len() < s.len(),
        s.subrange(p, p + number_items(xs).len()) == number_items(xs),
        s[p + number_items(xs).len()] == 0x5D,
    ensures
        number_items_scan(s, p, acc) == Some((acc + xs, p + number_items(xs).len() + 1)),
    decreases xs.len(),
{
    let items = number_items(xs);
    let x0 = xs[0];
    assert forall|k: int| 0 <= k < items.len() implies s[p + k] == items[k] by {
        assert(s.subrange(p, p + items.len())[k] == s[p + k]);
    }
    if xs.len() == 1 {
        assert(items == x0);
        assert(s.subrange(p, p + x0.len()) =~= x0);
        assert(s[p + x0.len()] == 0x5D);
        lemma_number_end_embed(s, p, x0);
        let q = p + x0.len();
        assert(number_end(s, p) == q);
        assert(clamp_after(s, p, q) == q);
        assert(s.subrange(p, q) =~= x0);
        assert(acc + xs =~= acc.push(x0));
    } else {
        lemma_number_items_first(xs);
        assert forall|k: int| 0 <= k < x0.len() implies s[p + k] == x0[k] by {
            assert(items[k] == x0[k]);
        }
        assert(s.subrange(p, p + x0.len()) =~= x0);
        assert(s[p + x0.len()] == 0x2C) by {
            assert(items[x0.len() as int] == 0x2C);
        }
        lemma_number_end_embed(s, p, x0);
        let q = p + x0.len();
        assert(clamp_after(s, p, q) == q);
        assert(s.subrange(p, q) =~= x0);
        let rest = number_items(xs.skip(1));
        assert(s.subrange(q + 1, q + 1 + rest.len()) =~= rest) by {
            assert forall|k: int| 0 <= k < rest.len() implies s[q + 1 + k] == rest[k] by {
                assert(items[x0.len() + 1 + k] == rest[k]);
            }
        }
        assert(s[q + 1 + rest.len()] == 0x5D) by {
            assert(p + items.len() == q + 1 + rest.len());
        }
        lemma_number_items_roundtrip(s, q + 1, xs.skip(1), acc.push(x0));
        assert(acc.push(x0) + xs.skip(1) =~= acc + xs);
    }
}

proof fn lemma_string_array_roundtrip(s: Seq<u8>, p: int, xs: Seq<Seq<u8>>)
    requires
        0 <= p,
        p + spec_string_array(xs).len() <= s.len(),
        s.subrange(p, p + spec_string_array(xs).len()) == spec_string_array(xs),
    ensures
        string_array_scan(s, p) == Some((xs, p + spec_string_array(xs).len())),
{
    let arr = spec_string_array(xs);
    let items = string_items(xs);
    assert forall|k: int| 0 <= k < arr.len() implies s[p + k] == arr[k] by {
        assert(s.subrange(p, p + arr.len())[k] == s[p + k]);
    }
    assert(arr[0] == 0x5B);
    assert(s[p + 0] == 0x5B);
    if xs.len() == 0 {
        assert(arr.len() == 2);
        assert(arr[1] == 0x5D);
        assert(s[p + 1] == 0x5D);
        assert(xs =~= Seq::<Seq<u8>>::empty());
    } else {
        assert(s[p + 1] == 0x22) by {
            assert(items.len() >= 1);
            assert(items[0] == 0x22) by {
                if xs.len() >= 2 {
                    lemma_string_items_first(xs);
                    assert(items[0] == spec_json_string(xs[0])[0]);
                } else {
                    assert(items == spec_json_string(xs[0]));
                }
                assert(spec_json_string(xs[0])[0] == 0x22);
            }
            assert(arr[1] == items[0]);
        }
        assert(s.subrange(p + 1, p + 1 + items.len()) =~= items) by {
            assert forall|k: int| 0 <= k < items.len() implies s[p + 1 + k] == items[k] by {
                assert(arr[1 + k] == items[k]);
            }
        }
        assert(s[p + 1 + items.len()] == 0x5D) by {
            assert(arr[1 + items.len() as int] == 0x5D);
        }
        lemma_string_items_roundtrip(s, p + 1, xs, Seq::empty());
        assert(Seq::empty() + xs =~= xs);
    }
}

proof fn lemma_number_array_roundtrip(s: Seq<u8>, p: int, xs: Seq<Seq<u8>>)
    requires
        0 <= p,
        forall|i: int| 0 <= i < xs.len() ==> is_number_token(#[trigger] xs[i]),
        p + spec_number_array(xs).len() <= s.len(),
        s.subrange(p, p + spec_number_array(xs).len()) == spec_number_array(xs),
    ensures
        number_array_scan(s, p) == Some((xs, p + spec_number_array(xs).len())),
{
    let arr = spec_number_array(xs);
    let items = number_items(xs);
    assert forall|k: int| 0 <= k < arr.len() implies s[p + k] == arr[k] by {
        assert(s.subrange(p, p + arr.len())[k] == s[p + k]);
    }
    assert(arr[0] == 0x5B);
    assert(s[p + 0] == 0x5B);
    if xs.len() == 0 {
        assert(arr.len() == 2);
        assert(arr[1] == 0x5D);
        assert(s[p + 1] == 0x5D);
        assert(xs =~= Seq::<Seq<u8>>::empty());
    } else {
        assert(s[p + 1] != 0x5D) by {
            assert(items.len() >= 1);
            assert(items[0] == xs[0][0]) by {
                if xs.len() >= 2 {
                    lemma_number_items_first(xs);
                }
                assert(is_number_token(xs[0]));
                assert(xs[0].len() >= 1);
            }
            assert(is_digit(xs[0][0]) || xs[0][0] == 0x2D) by {
                assert(is_number_token(xs[0]));
                if !(is_digit(xs[0][0]) || xs[0][0] == 0x2D) {
                    assert(number_end(xs[0], 0) == -1);
                }
            }
            assert(arr[1] == items[0]);
        }
        assert(s.subrange(p + 1, p + 1 + items.len()) =~= items) by {
            assert forall|k: int| 0 <= k < items.len() implies s[p + 1 + k] == items[k] by {
                assert(arr[1 + k] == items[k]);
            }
        }
        assert(s[p + 1 + items.len()] == 0x5D) by {
            assert(arr[1 + items.len() as int] == 0x5D);
        }
        lemma_number_items_roundtrip(s, p + 1, xs, Seq::empty());
        assert(Seq::empty() + xs =~= xs);
    }
}

#[verifier::rlimit(100)]
#[verifier::spinoff_prover]
proof fn lemma_repo_roundtrip(r: RepositoryEntryModel)
    requires
        r.wf(),
    ensures
        entry_scan(spec_serialize_repository(r)) == Some(IndexFileEntryModel::Repository(r)),
{
    let s = spec_serialize_repository(r);
    let jp = spec_json_string(r.path);
    let jc = spec_json_string(r.commit);
    let dw = spec_decimal(r.chunk_window_size as nat);
    let ds = spec_decimal(r.chunk_step_size as nat);
    let ti = r.include_files.map_values(|p: GlobPatternModel| p.text());
    let te = r.exclude_files.map_values(|p: GlobPatternModel| p.text());
    let ai = spec_string_array(ti);
    let ae = spec_string_array(te);
    let tail = seq![0x7Du8];
    proof_reveal_lits();
    let r11 = ae + tail;
    let r10 = lit_key_excl() + r11;
    let r9 = ai + r10;
    let r8 = lit_key_incl() + r9;
    let r7 = ds + r8;
    let r6 = lit_key_step() + r7;
    let r5 = dw + r6;
    let r4 = lit_key_window() + r5;
    let r3 = jc + r4;
    let r2 = lit_key_commit() + r3;
    let r1 = jp + r2;
    assert(s.subrange(0, s.len() as int) =~= lit_repo_head() + r1);
    lemma_peel(s, 0, lit_repo_head(), r1);
    let p0 = lit_repo_head().len() as int;
    lemma_peel(s, p0, jp, r2);
    let p1 = p0 + jp.len();
    lemma_peel(s, p1, lit_key_commit(), r3);
    let p2 = p1 + lit_key_commit().len();
    lemma_peel(s, p2, jc, r4);
    let p3 = p2 + jc.len();
    lemma_peel(s, p3, lit_key_window(), r5);
    let p4 = p3 + lit_key_window().len();
    lemma_peel(s, p4, dw, r6);
    let p5 = p4 + dw.len();
    lemma_peel(s, p5, lit_key_step(), r7);
    let p6 = p5 + lit_key_step().len();
    lemma_peel(s, p6, ds, r8);
    let p7 = p6 + ds.len();
    lemma_peel(s, p7, lit_key_incl(), r9);
    let p8 = p7 + lit_key_incl().len();
    lemma_peel(s, p8, ai, r10);
    let p9 = p8 + ai.len();
    lemma_peel(s, p9, lit_key_excl(), r11);
    let p10 = p9 + lit_key_excl().len();
    lemma_peel(s, p10, ae, tail);
    let p11 = p10 + ae.len();
    assert(s.len() == p11 + 1);
    assert(s[p11] == 0x7D) by {
        assert(s.subrange(p11, s.len() as int)[0] == s[p11]);
    }
    assert(!lit_at(s, 0, lit_chunk_head())) by {
        if lit_at(s, 0, lit_chunk_head()) {
            assert(s.subrange(0, lit_chunk_head().len() as int)[9] == s[9]);
            assert(s.subrange(0, lit_repo_head().len() as int)[9] == s[9]);
        }
    }
    lemma_string_scan_roundtrip(s, p0, r.path);
    lemma_string_scan_roundtrip(s, p2, r.commit);
    assert(s[p5] == 0x2C) by {
        assert(s.subrange(p5, p5 + lit_key_step().len())[0] == s[p5]);
    }
    lemma_usize_end_embed(s, p4, r.chunk_window_size as nat);
    lemma_spec_decimal_chars(r.chunk_window_size as nat);
    assert(usize_scan(s, p4) == Some((r.chunk_window_size, p5))) by {
        assert(usize_end(s, p4) == p5);
        assert(clamp_after(s, p4, p5) == p5);
        assert(dec_value(s.subrange(p4, p5)) == r.chunk_window_size as nat);
    }
    assert(s[p7] == 0x2C) by {
        assert(s.subrange(p7, p7 + lit_key_incl().len())[0] == s[p7]);
    }
    lemma_usize_end_embed(s, p6, r.chunk_step_size as nat);
    assert(usize_scan(s, p6) == Some((r.chunk_step_size, p7))) by {
        assert(usize_end(s, p6) == p7);
        assert(clamp_after(s, p6, p7) == p7);
        assert(dec_value(s.subrange(p6, p7)) == r.chunk_step_size as nat);
    }
    lemma_string_array_roundtrip(s, p8, ti);
    lemma_string_array_roundtrip(s, p10, te);
    assert(ti.map_values(|t: Seq<u8>| spec_compile(t)) =~= r.include_files) by {
        assert forall|i: int| 0 <= i < r.include_files.len() implies ti.map_values(
            |t: Seq<u8>| spec_compile(t),
        )[i] == r.include_files[i] by {
            lemma_pattern_text_roundtrip(r.include_files[i]);
        }
    }
    assert(te.map_values(|t: Seq<u8>| spec_compile(t)) =~= r.exclude_files) by {
        assert forall|i: int| 0 <= i < r.exclude_files.len() implies te.map_values(
            |t: Seq<u8>| spec_compile(t),
        )[i] == r.exclude_files[i] by {
            lemma_pattern_text_roundtrip(r.exclude_files[i]);
        }
    }
    let rm = IndexFileEntryModel::Repository(r);
    assert(repo_scan_excl(s, p9, r.path, r.commit, r.chunk_window_size, r.chunk_step_size, ti) == Some(rm));
    assert(repo_scan_incl(s, p7, r.path, r.commit, r.chunk_window_size, r.chunk_step_size) == Some(rm));
    assert(repo_scan_step(s, p5, r.path, r.commit, r.chunk_window_size) == Some(rm));
    assert(repo_scan_window(s, p3, r.path, r.commit) == Some(rm));
    assert(repo_scan_commit(s, p1, r.path) == Some(rm));
    assert(repo_scan(s, p0) == Some(rm));
}

/// Parsing inverts serialization: scanning the canonical line of any
/// well-formed record yields exactly that record.
pub proof fn lemma_entry_roundtrip(m: IndexFileEntryModel)
    requires
        m.wf(),
    ensures
        entry_scan(spec_serialize_entry(m)) == Some(m),
{
    match m {
        IndexFileEntryModel::Repository(r) => {
            lemma_repo_roundtrip(r);
        },
        IndexFileEntryModel::Chunk(c) => {
            lemma_chunk_roundtrip(c);
        },
    }
}

#[verifier::rlimit(100)]
#[verifier::spinoff_prover]
proof fn lemma_chunk_roundtrip(c: ChunkEntryModel)
    requires
        c.wf(),
    ensures
        entry_scan(spec_serialize_chunk(c)) == Some(IndexFileEntryModel::Chunk(c)),
{
    let s = spec_serialize_chunk(c);
    let jp = spec_json_string(c.path);
    let dl = spec_decimal(c.line as nat);
    let ab = spec_number_array(c.embedding);
    let tail = seq![0x7Du8];
    proof_reveal_lits();
    let r5 = ab + tail;
    let r4 = lit_key_embedding() + r5;
    let r3 = dl + r4;
    let r2 = lit_key_line() + r3;
    let r1 = jp + r2;
    assert(s.subrange(0, s.len() as int) =~= lit_chunk_head() + r1);
    lemma_peel(s, 0, lit_chunk_head(), r1);
    let p0 = lit_chunk_head().len() as int;
    lemma_peel(s, p0, jp, r2);
    let p1 = p0 + jp.len();
    lemma_peel(s, p1, lit_key_line(), r3);
    let p2 = p1 + lit_key_line().len();
    lemma_peel(s, p2, dl, r4);
    let p3 = p2 + dl.len();
    lemma_peel(s, p3, lit_key_embedding(), r5);
    let p4 = p3 + lit_key_embedding().len();
    lemma_peel(s, p4, ab, tail);
    let p5 = p4 + ab.len();
    assert(s.len() == p5 + 1);
    assert(s[p5] == 0x7D) by {
        assert(s.subrange(p5, s.len() as int)[0] == s[p5]);
    }
    assert(!lit_at(s, 0, lit_repo_head())) by {
        if lit_at(s, 0, lit_repo_head()) {
            assert(s.subrange(0, lit_repo_head().len() as int)[9] == s[9]);
            assert(s.subrange(0, lit_chunk_head().len() as int)[9] == s[9]);
        }
    }
    lemma_string_scan_roundtrip(s, p0, c.path);
    assert(s[p3] == 0x2C) by {
        assert(s.subrange(p3, p3 + lit_key_embedding().len())[0] == s[p3]);
    }
    lemma_usize_end_embed(s, p2, c.line as nat);
    lemma_spec_decimal_chars(c.line as nat);
    assert(usize_scan(s, p2) == Some((c.line, p3))) by {
        assert(usize_end(s, p2) == p3);
        assert(clamp_after(s, p2, p3) == p3);
        assert(dec_value(s.subrange(p2, p3)) == c.line as nat);
    }
    lemma_number_array_roundtrip(s, p4, c.embedding);
    assert(chunk_scan(s, p0) == Some(IndexFileEntryModel::Chunk(c)));
}

// ---------------------------------------------------------------------------
// Executable serializer
// ---------------------------------------------------------------------------

fn push_lit_repo_head(out: &mut Vec<u8>)
    ensures
        final(out)@ == old(out)@ + lit_repo_head(),
{
    out.push(0x7B);
    out.push(0x22);
    out.push(0x74);
    out.push(0x79);
    out.push(0x70);
    out.push(0x65);
    out.push(0x22);
    out.push(0x3A);
    out.push(0x22);
    out.push(0x72);
    out.push(0x65);
    out.push(0x70);
    out.push(0x6F);
    out.push(0x73);
    out.push(0x69);
    out.push(0x74);
    out.push(0x6F);
    out.push(0x72);
    out.push(0x79);
    out.push(0x22);
    out.push(0x2C);
    out.push(0x22);
    out.push(0x70);
    out.push(0x61);
    out.push(0x74);
    out.push(0x68);
    out.push(0x22);
    out.push(0x3A);
    proof {
        reveal(lit_repo_head);
        assert(out@ =~= old(out)@ + lit_repo_head());
    }
}

fn push_lit_chunk_head(out: &mut Vec<u8>)
    ensures
        final(out)@ == old(out)@ + lit_chunk_head(),
{
    out.push(0x7B);
    out.push(0x22);
    out.push(0x74);
    out.push(0x79);
    out.push(0x70);
    out.push(0x65);
    out.push(0x22);
    out.push(0x3A);
    out.push(0x22);
    out.push(0x63);
    out.push(0x68);
    out.push(0x75);
    out.push(0x6E);
    out.push(0x6B);
    out.push(0x22);
    out.push(0x2C);
    out.push(0x22);
    out.push(0x70);
    out.push(0x61);
    out.push(0x74);
    out.push(0x68);
    out.push(0x22);
    out.push(0x3A);
    proof {
        reveal(lit_chunk_head);
        assert(out@ =~= old(out)@ + lit_chunk_head());
    }
}

fn push_lit_key_commit(out: &mut Vec<u8>)
    ensures
        final(out)@ == old(out)@ + lit_key_commit(),
{
    out.push(0x2C);
    out.push(0x22);
    out.push(0x63);
    out.push(0x6F);
    out.push(0x6D);
    out.push(0x6D);
    out.push(0x69);
    out.push(0x74);
    out.push(0x22);
    out.push(0x3A);
    proof {
        reveal(lit_key_commit);
        assert(out@ =~= old(out)@ + lit_key_commit());
    }
}

fn push_lit_key_window(out: &mut Vec<u8>)
    ensures
        final(out)@ == old(out)@ + lit_key_window(),
{
    out.push(0x2C);
    out.push(0x22);
    out.push(0x63);
    out.push(0x68);
    out.push(0x75);
    out.push(0x6E);
    out.push(0x6B);
    out.push(0x5F);
    out.push(0x77);
    out.push(0x69);
    out.push(0x6E);
    out.push(0x64);
    out.push(0x6F);
    out.push(0x77);
    out.push(0x5F);
    out.push(0x73);
    out.push(0x69);
    out.push(0x7A);
    out.push(0x65);
    out.push(0x22);
    out.push(0x3A);
    proof {
        reveal(lit_key_window);
        assert(out@ =~= old(out)@ + lit_key_window());
    }
}

fn push_lit_key_step(out: &mut Vec<u8>)
    ensures
        final(out)@ == old(out)@ + lit_key_step(),
{
    out.push(0x2C);
    out.push(0x22);
    out.push(0x63);
    out.push(0x68);
    out.push(0x75);
    out.push(0x6E);
    out.push(0x6B);
    out.push(0x5F);
    out.push(0x73);
    out.push(0x74);
    out.push(0x65);
    out.push(0x70);
    out.push(0x5F);
    out.push(0x73);
    out.push(0x69);
    out.push(0x7A);
    out.push(0x65);
    out.push(0x22);
    out.push(0x3A);
    proof {
        reveal(lit_key_step);
        assert(out@ =~= old(out)@ + lit_key_step());
    }
}

fn push_lit_key_incl(out: &mut Vec<u8>)
    ensures
        final(out)@ == old(out)@ + lit_key_incl(),
{
    out.push(0x2C);
    out.push(0x22);
    out.push(0x69);
    out.push(0x6E);
    out.push(0x63);
    out.push(0x6C);
    out.push(0x75);
    out.push(0x64);
    out.push(0x65);
    out.push(0x5F);
    out.push(0x66);
    out.push(0x69);
    out.push(0x6C);
    out.push(0x65);
    out.push(0x73);
    out.push(0x22);
    out.push(0x3A);
    proof {
        reveal(lit_key_incl);
        assert(out@ =~= old(out)@ + lit_key_incl());
    }
}

fn push_lit_key_excl(out: &mut Vec<u8>)
    ensures
        final(out)@ == old(out)@ + lit_key_excl(),
{
    out.push(0x2C);
    out.push(0x22);
    out.push(0x65);
    out.push(0x78);
    out.push(0x63);
    out.push(0x6C);
    out.push(0x75);
    out.push(0x64);
    out.push(0x65);
    out.push(0x5F);
    out.push(0x66);
    out.push(0x69);
    out.push(0x6C);
    out.push(0x65);
    out.push(0x73);
    out.push(0x22);
    out.push(0x3A);
    proof {
        reveal(lit_key_excl);
        assert(out@ =~= old(out)@ + lit_key_excl());
    }
}

fn push_lit_key_line(out: &mut Vec<u8>)
    ensures
        final(out)@ == old(out)@ + lit_key_line(),
{
    out.push(0x2C);
    out.push(0x22);
    out.push(0x6C);
    out.push(0x69);
    out.push(0x6E);
    out.push(0x65);
    out.push(0x22);
    out.push(0x3A);
    proof {
        reveal(lit_key_line);
        assert(out@ =~= old(out)@ + lit_key_line());
    }
}

fn push_lit_key_embedding(out: &mut Vec<u8>)
    ensures
        final(out)@ == old(out)@ + lit_key_embedding(),
{
    out.push(0x2C);
    out.push(0x22);
    out.push(0x65);
    out.push(0x6D);
    out.push(0x62);
    out.push(0x65);
    out.push(0x64);
    out.push(0x64);
    out.push(0x69);
    out.push(0x6E);
    out.push(0x67);
    out.push(0x22);
    out.push(0x3A);
    proof {
        reveal(lit_key_embedding);
        assert(out@ =~= old(out)@ + lit_key_embedding());
    }
}

/// Appends the JSON array of the patterns' texts.
fn push_pattern_array(out: &mut Vec<u8>, ps: &Vec<GlobPathPattern>)
    requires
        forall|i: int| 0 <= i < ps@.len() ==> (#[trigger] ps@[i])@.wf(),
    ensures
        final(out)@ == old(out)@ + spec_string_array(
            ps@.map_values(|p: GlobPathPattern| p@).map_values(|m: GlobPatternModel| m.text()),
        ),
{
    let ghost texts = ps@.map_values(|p: GlobPathPattern| p@).map_values(
        |m: GlobPatternModel| m.text(),
    );
    out.push(0x5B);
    let ghost base = out@;
    let mut i: usize = 0;
    while i < ps.len()
        invariant
            i <= ps@.len(),
            forall|t: int| 0 <= t < ps@.len() ==> (#[trigger] ps@[t])@.wf(),
            texts == ps@.map_values(|p: GlobPathPattern| p@).map_values(
                |m: GlobPatternModel| m.text(),
            ),
            texts.len() == ps@.len(),
            out@ == base + string_items(texts.subrange(0, i as int)),
        decreases ps@.len() - i,
    {
        if i > 0 {
            out.push(0x2C);
        }
        let t = ps[i].to_text();
        push_json_string(out, t.as_slice());
        proof {
            assert(texts[i as int] == ps@[i as int]@.text());
            assert(t@ == texts[i as int]);
            if i == 0 {
                assert(texts.subrange(0, 1) =~= seq![texts[0]]);
                assert(out@ =~= base + string_items(texts.subrange(0, 1)));
            } else {
                assert(texts.subrange(0, i + 1).drop_last() =~= texts.subrange(0, i as int));
                assert(texts.subrange(0, i + 1).last() == texts[i as int]);
                assert(out@ =~= base + string_items(texts.subrange(0, i + 1)));
            }
        }
        i = i + 1;
    }
    out.push(0x5D);
    proof {
        assert(texts.subrange(0, texts.len() as int) =~= texts);
        assert(out@ =~= old(out)@ + spec_string_array(texts));
    }
}

/// Appends the JSON array of the embedding's number tokens, verbatim.
fn push_embedding(out: &mut Vec<u8>, e: &Embedding)
    ensures
        final(out)@ == old(out)@ + spec_number_array(e@),
{
    out.push(0x5B);
    let ghost base = out@;
    let mut i: usize = 0;
    while i < e.0.len()
        invariant
            i <= e.0@.len(),
            out@ == base + number_items(e@.subrange(0, i as int)),
        decreases e.0@.len() - i,
    {
        if i > 0 {
            out.push(0x2C);
        }
        let tok = &e.0[i];
        let ghost mid = out@;
        let mut k: usize = 0;
        while k < tok.len()
            invariant
                k <= tok@.len(),
                out@ == mid + tok@.subrange(0, k as int),
            decreases tok@.len() - k,
        {
            out.push(tok[k]);
            proof {
                assert(out@ =~= mid + tok@.subrange(0, k + 1));
            }
            k = k + 1;
        }
        proof {
            assert(tok@.subrange(0, tok@.len() as int) =~= tok@);
            assert(e@[i as int] == tok@);
            if i == 0 {
                assert(e@.subrange(0, 1) =~= seq![e@[0]]);
                assert(out@ =~= base + number_items(e@.subrange(0, 1)));
            } else {
                assert(e@.subrange(0, i + 1).drop_last() =~= e@.subrange(0, i as int));
                assert(e@.subrange(0, i + 1).last() == e@[i as int]);
                assert(out@ =~= base + number_items(e@.subrange(0, i + 1)));
            }
        }
        i = i + 1;
    }
    out.push(0x5D);
    proof {
        assert(e@.subrange(0, e@.len() as int) =~= e@);
        assert(out@ =~= old(out)@ + spec_number_array(e@));
    }
}

/// The canonical one-line serialization of a record. Scanning it back yields
/// exactly the record again.
pub fn serialize_entry(e: &IndexFileEntry) -> (r: Vec<u8>)
    requires
        e@.wf(),
    ensures
        r@ == spec_serialize_entry(e@),
        entry_scan(r@) == Some(e@),
{
    proof {
        lemma_entry_roundtrip(e@);
    }
    match e {
        IndexFileEntry::Repository(re) => serialize_repository(re),
        IndexFileEntry::Chunk(ce) => serialize_chunk(ce),
    }
}

#[verifier::rlimit(100)]
#[verifier::spinoff_prover]
fn serialize_repository(re: &RepositoryEntry) -> (r: Vec<u8>)
    requires
        re@.wf(),
    ensures
        r@ == spec_serialize_repository(re@),
{
    let mut out: Vec<u8> = Vec::new();
    proof {
        assert forall|i: int| 0 <= i < re.include_files@.len() implies (#[trigger] re.include_files@[i])@.wf() by {
            assert(re@.include_files[i] == re.include_files@[i]@);
        }
        assert forall|i: int| 0 <= i < re.exclude_files@.len() implies (#[trigger] re.exclude_files@[i])@.wf() by {
            assert(re@.exclude_files[i] == re.exclude_files@[i]@);
        }
    }
    push_lit_repo_head(&mut out);
            let ghost o1 = out@;
            push_json_string(&mut out, re.path.as_slice());
            let ghost o2 = out@;
            push_lit_key_commit(&mut out);
            let ghost o3 = out@;
            push_json_string(&mut out, re.commit.as_slice());
            let ghost o4 = out@;
            push_lit_key_window(&mut out);
            let ghost o5 = out@;
            push_decimal(&mut out, re.chunk_window_size);
            let ghost o6 = out@;
            push_lit_key_step(&mut out);
            let ghost o7 = out@;
            push_decimal(&mut out, re.chunk_step_size);
            let ghost o8 = out@;
            push_lit_key_incl(&mut out);
            let ghost o9 = out@;
            push_pattern_array(&mut out, &re.include_files);
            let ghost o10 = out@;
            push_lit_key_excl(&mut out);
            let ghost o11 = out@;
            push_pattern_array(&mut out, &re.exclude_files);
            let ghost o12 = out@;
            out.push(0x7D);
            proof {
                let jp = spec_json_string(re@.path);
                let jc = spec_json_string(re@.commit);
                let dw = spec_decimal(re@.chunk_window_size as nat);
                let ds = spec_decimal(re@.chunk_step_size as nat);
                let ai = spec_string_array(
                    re@.include_files.map_values(|p: GlobPatternModel| p.text()),
                );
                let ae = spec_string_array(
                    re@.exclude_files.map_values(|p: GlobPatternModel| p.text()),
                );
                let t = seq![0x7Du8];
                assert(out@ =~= o12 + t);
                assert(out@ =~= o11 + (ae + t));
                assert(out@ =~= o10 + (lit_key_excl() + (ae + t)));
                assert(out@ =~= o9 + (ai + (lit_key_excl() + (ae + t))));
                assert(out@ =~= o8 + (lit_key_incl() + (ai + (lit_key_excl() + (ae + t)))));
                assert(out@ =~= o7 + (ds + (lit_key_incl() + (ai + (lit_key_excl() + (ae
                    + t))))));
                assert(out@ =~= o6 + (lit_key_step() + (ds + (lit_key_incl() + (ai + (
                lit_key_excl() + (ae + t)))))));
                assert(out@ =~= o5 + (dw + (lit_key_step() + (ds + (lit_key_incl() + (ai + (
                lit_key_excl() + (ae + t))))))));
                assert(out@ =~= o4 + (lit_key_window() + (dw + (lit_key_step() + (ds + (
                lit_key_incl() + (ai + (lit_key_excl() + (ae + t)))))))));
                assert(out@ =~= o3 + (jc + (lit_key_window() + (dw + (lit_key_step() + (ds + (
                lit_key_incl() + (ai + (lit_key_excl() + (ae + t))))))))));
                assert(out@ =~= o2 + (lit_key_commit() + (jc + (lit_key_window() + (dw + (
                lit_key_step() + (ds + (lit_key_incl() + (ai + (lit_key_excl() + (ae
                    + t)))))))))));
                assert(out@ =~= o1 + (jp + (lit_key_commit() + (jc + (lit_key_window() + (dw + (
                lit_key_step() + (ds + (lit_key_incl() + (ai + (lit_key_excl() + (ae
                    + t))))))))))));
                assert(out@ =~= spec_serialize_repository(re@));
    }
    out
}

#[verifier::rlimit(100)]
#[verifier::spinoff_prover]
fn serialize_chunk(ce: &ChunkEntry) -> (r: Vec<u8>)
    requires
        ce@.wf(),
    ensures
        r@ == spec_serialize_chunk(ce@),
{
    let mut out: Vec<u8> = Vec::new();
    push_lit_chunk_head(&mut out);
            let ghost o1 = out@;
            push_json_string(&mut out, ce.path.as_slice());
            let ghost o2 = out@;
            push_lit_key_line(&mut out);
            let ghost o3 = out@;
            push_decimal(&mut out, ce.line);
            let ghost o4 = out@;
            push_lit_key_embedding(&mut out);
            let ghost o5 = out@;
            push_embedding(&mut out, &ce.embedding);
            let ghost o6 = out@;
            out.push(0x7D);
            proof {
                let jp = spec_json_string(ce@.path);
                let dl = spec_decimal(ce@.line as nat);
                let ab = spec_number_array(ce@.embedding);
                let t = seq![0x7Du8];
                assert(out@ =~= o6 + t);
                assert(out@ =~= o5 + (ab + t));
                assert(out@ =~= o4 + (lit_key_embedding() + (ab + t)));
                assert(out@ =~= o3 + (dl + (lit_key_embedding() + (ab + t))));
                assert(out@ =~= o2 + (lit_key_line() + (dl + (lit_key_embedding() + (ab + t)))));
                assert(out@ =~= o1 + (jp + (lit_key_line() + (dl + (lit_key_embedding() + (ab
                    + t))))));
                assert(out@ =~= spec_serialize_chunk(ce@));
    }
    out
}

// ---------------------------------------------------------------------------
// Executable parser
// ---------------------------------------------------------------------------

/// Whether `v` is a complete JSON number token on its own.
fn is_number_token_exec(v: &Vec<u8>) -> (r: bool)
    ensures
        r == is_number_token(v@),
{
    match parse_number(v.as_slice(), 0) {
        Some((_, j)) => j == v.len(),
        None => false,
    }
}

/// Parses a JSON array of strings at `from`.
fn parse_string_array(s: &[u8], from: usize) -> (r: Option<(Vec<Vec<u8>>, usize)>)
    requires
        from <= s@.len(),
    ensures
        match r {
            Some((v, j)) => string_array_scan(s@, from as int) == Some((v.deep_view(), j as int))
                && from < j <= s@.len(),
            None => string_array_scan(s@, from as int) is None,
        },
{
    if from >= s.len() || s[from] != 0x5B {
        return None;
    }
    if from + 1 < s.len() && s[from + 1] == 0x5D {
        let v: Vec<Vec<u8>> = Vec::new();
        proof {
            assert(v.deep_view() =~~= Seq::<Seq<u8>>::empty());
        }
        return Some((v, from + 2));
    }
    let mut acc: Vec<Vec<u8>> = Vec::new();
    proof {
        assert(acc.deep_view() =~~= Seq::<Seq<u8>>::empty());
    }
    let mut pos = from + 1;
    loop
        invariant
            from + 1 <= pos <= s@.len(),
            from < s@.len(),
            s@[from as int] == 0x5B,
            !(from + 1 < s@.len() && s@[from + 1] == 0x5D),
            string_items_scan(s@, from as int + 1, Seq::empty()) == string_items_scan(
                s@,
                pos as int,
                acc.deep_view(),
            ),
        decreases s@.len() - pos,
    {
        match parse_string(s, pos) {
            None => {
                return None;
            },
            Some((x, q)) => {
                proof {
                    assert(clamp_after(s@, pos as int, q as int) == q as int);
                }
                let ghost acc0 = acc.deep_view();
                if q < s.len() && s[q] == 0x2C {
                    acc.push(x);
                    proof {
                        assert(acc.deep_view() =~~= acc0.push(x@));
                    }
                    pos = q + 1;
                } else if q < s.len() && s[q] == 0x5D {
                    acc.push(x);
                    proof {
                        assert(acc.deep_view() =~~= acc0.push(x@));
                    }
                    return Some((acc, q + 1));
                } else {
                    return None;
                }
            },
        }
    }
}

/// Parses a JSON array of number tokens at `from` into an embedding.
fn parse_number_array(s: &[u8], from: usize) -> (r: Option<(Vec<Vec<u8>>, usize)>)
    requires
        from <= s@.len(),
    ensures
        match r {
            Some((v, j)) => number_array_scan(s@, from as int) == Some((v.deep_view(), j as int))
                && from < j <= s@.len() && embedding_wf(v.deep_view()),
            None => number_array_scan(s@, from as int) is None,
        },
{
    if from >= s.len() || s[from] != 0x5B {
        return None;
    }
    if from + 1 < s.len() && s[from + 1] == 0x5D {
        let v: Vec<Vec<u8>> = Vec::new();
        proof {
            assert(v.deep_view() =~~= Seq::<Seq<u8>>::empty());
        }
        return Some((v, from + 2));
    }
    let mut acc: Vec<Vec<u8>> = Vec::new();
    proof {
        assert(acc.deep_view() =~~= Seq::<Seq<u8>>::empty());
    }
    let mut pos = from + 1;
    loop
        invariant
            from + 1 <= pos <= s@.len(),
            from < s@.len(),
            s@[from as int] == 0x5B,
            !(from + 1 < s@.len() && s@[from + 1] == 0x5D),
            embedding_wf(acc.deep_view()),
            number_items_scan(s@, from as int + 1, Seq::empty()) == number_items_scan(
                s@,
                pos as int,
                acc.deep_view(),
            ),
        decreases s@.len() - pos,
    {
        match parse_number(s, pos) {
            None => {
                return None;
            },
            Some((x, q)) => {
                proof {
                    assert(clamp_after(s@, pos as int, q as int) == q as int);
                    assert(x@ == s@.subrange(pos as int, q as int));
                }
                if !is_number_token_exec(&x) {
                    return None;
                }
                let ghost acc0 = acc.deep_view();
                if q < s.len() && s[q] == 0x2C {
                    acc.push(x);
                    proof {
                        assert(acc.deep_view() =~~= acc0.push(s@.subrange(pos as int, q as int)));
                    }
                    pos = q + 1;
                } else if q < s.len() && s[q] == 0x5D {
                    acc.push(x);
                    proof {
                        assert(acc.deep_view() =~~= acc0.push(s@.subrange(pos as int, q as int)));
                    }
                    return Some((acc, q + 1));
                } else {
                    return None;
                }
            },
        }
    }
}

/// Compiles parsed pattern texts.
fn compile_patterns(texts: &Vec<Vec<u8>>) -> (r: Vec<GlobPathPattern>)
    ensures
        r@.map_values(|p: GlobPathPattern| p@) == texts.deep_view().map_values(
            |t: Seq<u8>| spec_compile(t),
        ),
{
    let mut r: Vec<GlobPathPattern> = Vec::new();
    let mut i: usize = 0;
    while i < texts.len()
        invariant
            i <= texts@.len(),
            r@.len() == i,
            forall|k: int| 0 <= k < i ==> #[trigger] r@[k]@ == spec_compile(texts@[k]@),
        decreases texts@.len() - i,
    {
        r.push(GlobPathPattern::new(texts[i].as_slice()));
        i = i + 1;
    }
    proof {
        assert(r@.map_values(|p: GlobPathPattern| p@) =~= texts.deep_view().map_values(
            |t: Seq<u8>| spec_compile(t),
        ));
    }
    r
}

/// Parses one log line. Succeeds exactly on the lines the scanner accepts,
/// and every parsed record is well formed.
#[verifier::rlimit(100)]
#[verifier::spinoff_prover]
pub fn parse_entry(line: &[u8]) -> (r: Option<IndexFileEntry>)
    ensures
        match r {
            Some(e) => entry_scan(line@) == Some(e@) && e@.wf(),
            None => entry_scan(line@) is None,
        },
{
    let mut repo_head: Vec<u8> = Vec::new();
    push_lit_repo_head(&mut repo_head);
    let mut chunk_head: Vec<u8> = Vec::new();
    push_lit_chunk_head(&mut chunk_head);
    proof {
        assert(repo_head@ =~= lit_repo_head());
        assert(chunk_head@ =~= lit_chunk_head());
    }
    match expect_lit(line, 0, repo_head.as_slice()) {
        Some(p0) => {
            let (path, p1) = match parse_string(line, p0) {
                Some(v) => v,
                None => {
                    return None;
                },
            };
            let mut key: Vec<u8> = Vec::new();
            push_lit_key_commit(&mut key);
            proof {
                assert(key@ =~= lit_key_commit());
            }
            let p1b = match expect_lit(line, p1, key.as_slice()) {
                Some(v) => v,
                None => {
                    return None;
                },
            };
            let (commit, p2) = match parse_string(line, p1b) {
                Some(v) => v,
                None => {
                    return None;
                },
            };
            let mut key2: Vec<u8> = Vec::new();
            push_lit_key_window(&mut key2);
            proof {
                assert(key2@ =~= lit_key_window());
            }
            let p2b = match expect_lit(line, p2, key2.as_slice()) {
                Some(v) => v,
                None => {
                    return None;
                },
            };
            let (w, p3) = match parse_usize(line, p2b) {
                Some(v) => v,
                None => {
                    proof {
                        crate::json::lemma_digits_end(line@, p2b as int);
                    }
                    return None;
                },
            };
            if w < 1 {
                return None;
            }
            let mut key3: Vec<u8> = Vec::new();
            push_lit_key_step(&mut key3);
            proof {
                assert(key3@ =~= lit_key_step());
            }
            let p3b = match expect_lit(line, p3, key3.as_slice()) {
                Some(v) => v,
                None => {
                    return None;
                },
            };
            let (st, p4) = match parse_usize(line, p3b) {
                Some(v) => v,
                None => {
                    proof {
                        crate::json::lemma_digits_end(line@, p3b as int);
                    }
                    return None;
                },
            };
            if st < 1 {
                return None;
            }
            let mut key4: Vec<u8> = Vec::new();
            push_lit_key_incl(&mut key4);
            proof {
                assert(key4@ =~= lit_key_incl());
            }
            let p4b = match expect_lit(line, p4, key4.as_slice()) {
                Some(v) => v,
                None => {
                    return None;
                },
            };
            let (incl, p5) = match parse_string_array(line, p4b) {
                Some(v) => v,
                None => {
                    return None;
                },
            };
            let mut key5: Vec<u8> = Vec::new();
            push_lit_key_excl(&mut key5);
            proof {
                assert(key5@ =~= lit_key_excl());
            }
            let p5b = match expect_lit(line, p5, key5.as_slice()) {
                Some(v) => v,
                None => {
                    return None;
                },
            };
            let (excl, p6) = match parse_string_array(line, p5b) {
                Some(v) => v,
                None => {
                    return None;
                },
            };
            if !(p6 < line.len() && line[p6] == 0x7D && p6 + 1 == line.len()) {
                return None;
            }
            let e = IndexFileEntry::Repository(
                RepositoryEntry {
                    path,
                    commit,
                    chunk_window_size: w,
                    chunk_step_size: st,
                    include_files: compile_patterns(&incl),
                    exclude_files: compile_patterns(&excl),
                },
            );
            proof {
                assert(entry_scan(line@) == Some(e@));
                assert forall|i: int| 0 <= i < e@->Repository_0.include_files.len() implies (
                #[trigger] e@->Repository_0.include_files[i]).wf() by {
                    lemma_compile_wf(incl.deep_view()[i]);
                }
                assert forall|i: int| 0 <= i < e@->Repository_0.exclude_files.len() implies (
                #[trigger] e@->Repository_0.exclude_files[i]).wf() by {
                    lemma_compile_wf(excl.deep_view()[i]);
                }
            }
            Some(e)
        },
        None => {
            match expect_lit(line, 0, chunk_head.as_slice()) {
                Some(p0) => {
                    let (path, p1) = match parse_string(line, p0) {
                        Some(v) => v,
                        None => {
                            return None;
                        },
                    };
                    let mut key: Vec<u8> = Vec::new();
                    push_lit_key_line(&mut key);
                    proof {
                        assert(key@ =~= lit_key_line());
                    }
                    let p1b = match expect_lit(line, p1, key.as_slice()) {
                        Some(v) => v,
                        None => {
                            return None;
                        },
                    };
                    let (ln, p2) = match parse_usize(line, p1b) {
                        Some(v) => v,
                        None => {
                            proof {
                                crate::json::lemma_digits_end(line@, p1b as int);
                            }
                            return None;
                        },
                    };
                    let mut key2: Vec<u8> = Vec::new();
                    push_lit_key_embedding(&mut key2);
                    proof {
                        assert(key2@ =~= lit_key_embedding());
                    }
                    let p2b = match expect_lit(line, p2, key2.as_slice()) {
                        Some(v) => v,
                        None => {
                            return None;
                        },
                    };
                    let (emb, p3) = match parse_number_array(line, p2b) {
                        Some(v) => v,
                        None => {
                            return None;
                        },
                    };
                    if !(p3 < line.len() && line[p3] == 0x7D && p3 + 1 == line.len()) {
                        return None;
                    }
                    let e = IndexFileEntry::Chunk(
                        ChunkEntry { path, line: ln, embedding: Embedding(emb) },
                    );
                    proof {
                        assert(entry_scan(line@) == Some(e@));
                    }
                    Some(e)
                },
                None => None,
            }
        },
    }
}

// ---------------------------------------------------------------------------
// Copying records
// ---------------------------------------------------------------------------

impl Clone for Embedding {
    /// A copy with the same number tokens.
    fn clone(&self) -> (r: Self)
        ensures
            r@ == self@,
    {
        let mut v: Vec<Vec<u8>> = Vec::new();
        let mut i: usize = 0;
        while i < self.0.len()
            invariant
                i <= self.0@.len(),
                v@.len() == i,
                forall|k: int| 0 <= k < i ==> #[trigger] v@[k]@ == self.0@[k]@,
            decreases self.0@.len() - i,
        {
            v.push(crate::bytes::copy_bytes(&self.0[i]));
            i = i + 1;
        }
        let r = Embedding(v);
        proof {
            assert(r@ =~~= self@);
        }
        r
    }
}

impl Clone for RepositoryEntry {
    /// A copy with the same content.
    fn clone(&self) -> (r: Self)
        ensures
            r@ == self@,
    {
        let r = RepositoryEntry {
            path: crate::bytes::copy_bytes(&self.path),
            commit: crate::bytes::copy_bytes(&self.commit),
            chunk_window_size: self.chunk_window_size,
            chunk_step_size: self.chunk_step_size,
            include_files: crate::glob::clone_patterns(&self.include_files),
            exclude_files: crate::glob::clone_patterns(&self.exclude_files),
        };
        proof {
            assert(r@ =~~= self@);
        }
        r
    }
}

impl Clone for ChunkEntry {
    /// A copy with the same content.
    fn clone(&self) -> (r: Self)
        ensures
            r@ == self@,
    {
        let r = ChunkEntry {
            path: crate::bytes::copy_bytes(&self.path),
            line: self.line,
            embedding: self.embedding.clone(),
        };
        proof {
            assert(r@ =~~= self@);
        }
        r
    }
}

impl Clone for IndexFileEntry {
    /// A copy with the same content.
    fn clone(&self) -> (r: Self)
        ensures
            r@ == self@,
    {
        match self {
            IndexFileEntry::Repository(e) => IndexFileEntry::Repository(e.clone()),
            IndexFileEntry::Chunk(e) => IndexFileEntry::Chunk(e.clone()),
        }
    }
}

} // verus!

