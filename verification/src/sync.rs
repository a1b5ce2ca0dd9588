//! Rewriting the log: removing a repository's whole section, and planning an
//! incremental sync from per-repository probe results. Both are pure
//! transformations of the scanned record list; the caller writes the result
//! to a staging file and renames it over the log in one step.

use vstd::prelude::*;

use crate::bytes::bytes_eq;
use crate::index_file::{IndexError, IndexFileEntry, IndexFileEntryModel, RepositoryEntryModel};
use crate::search::{last_repo, lemma_last_repo_prefix, no_orphan_chunks};
use crate::glob::spec_should_include;

verus! {

/// Some repository record in the log has exactly this root path.
pub open spec fn spec_has_repository(entries: Seq<IndexFileEntryModel>, rp: Seq<u8>) -> bool {
    exists|i: int|
        0 <= i < entries.len() && ((#[trigger] entries[i]) matches
            IndexFileEntryModel::Repository(r) && r.path == rp)
}

/// Whether the record at `i` survives removing the repository rooted at `rp`:
/// repository records with another root survive, and a chunk survives exactly
/// when its governing repository does.
pub open spec fn keeps_entry(entries: Seq<IndexFileEntryModel>, i: int, rp: Seq<u8>) -> bool {
    match entries[i] {
        IndexFileEntryModel::Repository(r) => r.path != rp,
        IndexFileEntryModel::Chunk(_) => match last_repo(entries, i) {
            Option::Some(r) => r.path != rp,
            Option::None => false,
        },
    }
}

/// The log after removing the section of the repository rooted at `rp`: the
/// surviving records in their original relative order.
pub open spec fn spec_remove(entries: Seq<IndexFileEntryModel>, rp: Seq<u8>) -> Seq<
    IndexFileEntryModel,
>
    decreases entries.len(),
{
    if entries.len() == 0 {
        Seq::empty()
    } else {
        let pre = spec_remove(entries.drop_last(), rp);
        if keeps_entry(entries, entries.len() - 1, rp) {
            pre.push(entries.last())
        } else {
            pre
        }
    }
}

/// Whether the log has a repository record rooted at `rp`.
pub fn has_repository(entries: &Vec<IndexFileEntry>, repo_path: &[u8]) -> (r: bool)
    ensures
        r == spec_has_repository(entries.deep_view(), repo_path@),
{
    let ghost es = entries.deep_view();
    let mut i: usize = 0;
    while i < entries.len()
        invariant
            i <= entries@.len(),
            es == entries.deep_view(),
            forall|k: int|
                0 <= k < i ==> !((#[trigger] es[k]) matches IndexFileEntryModel::Repository(r)
                    && r.path == repo_path@),
        decreases entries@.len() - i,
    {
        proof {
            assert(es[i as int] == entries@[i as int]@);
        }
        match &entries[i] {
            IndexFileEntry::Repository(re) => {
                if bytes_eq(re.path.as_slice(), repo_path) {
                    return true;
                }
            },
            IndexFileEntry::Chunk(_) => {},
        }
        i = i + 1;
    }
    false
}

/// The rewrite that removes one repository: every record of that repository's
/// sections is dropped and everything else is kept in order. Fails when the
/// repository was never added, or when some chunk precedes every repository
/// record.
#[verifier::rlimit(100)]
#[verifier::spinoff_prover]
pub fn remove_plan(entries: &Vec<IndexFileEntry>, repo_path: &[u8]) -> (r: Result<
    Vec<IndexFileEntry>,
    IndexError,
>)
    ensures
        match r {
            Ok(out) => spec_has_repository(entries.deep_view(), repo_path@) && no_orphan_chunks(
                entries.deep_view(),
            ) && out.deep_view() == spec_remove(entries.deep_view(), repo_path@),
            Err(e) => (e == IndexError::RepositoryNotFound && !spec_has_repository(
                entries.deep_view(),
                repo_path@,
            )) || (e == IndexError::ChunkBeforeRepository && spec_has_repository(
                entries.deep_view(),
                repo_path@,
            ) && !no_orphan_chunks(entries.deep_view())),
        },
{
    let ghost es = entries.deep_view();
    if !has_repository(entries, repo_path) {
        return Err(IndexError::RepositoryNotFound);
    }
    let mut out: Vec<IndexFileEntry> = Vec::new();
    // `None` until the first repository record; then whether the current
    // section belongs to the repository being removed.
    let mut removing: Option<bool> = None;
    let mut i: usize = 0;
    proof {
        assert(out.deep_view() =~~= spec_remove(es.take(0), repo_path@));
    }
    while i < entries.len()
        invariant
            i <= entries@.len(),
            es == entries.deep_view(),
            spec_has_repository(es, repo_path@),
            out.deep_view() == spec_remove(es.take(i as int), repo_path@),
            match removing {
                Option::None => last_repo(es, i as int) is None,
                Option::Some(t) => (last_repo(es, i as int) matches Option::Some(r) && (t == (
                r.path == repo_path@))),
            },
            forall|k: int| 0 <= k < i && (#[trigger] es[k]) is Chunk ==> last_repo(es, k) is Some,
        decreases entries@.len() - i,
    {
        proof {
            assert(es[i as int] == entries@[i as int]@);
            assert(es.take(i + 1).drop_last() =~= es.take(i as int));
            assert(es.take(i + 1).last() == es[i as int]);
            lemma_last_repo_prefix(es, i + 1, i as int);
        }
        let ghost out0 = out.deep_view();
        match &entries[i] {
            IndexFileEntry::Repository(re) => {
                if bytes_eq(re.path.as_slice(), repo_path) {
                    removing = Some(true);
                    proof {
                        assert(!keeps_entry(es.take(i + 1), i as int, repo_path@));
                        assert(out.deep_view() =~~= spec_remove(es.take(i + 1), repo_path@));
                    }
                } else {
                    removing = Some(false);
                    out.push(IndexFileEntry::Repository(re.clone()));
                    proof {
                        assert(keeps_entry(es.take(i + 1), i as int, repo_path@));
                        assert(out.deep_view() =~~= out0.push(es[i as int]));
                        assert(out.deep_view() =~~= spec_remove(es.take(i + 1), repo_path@));
                    }
                }
            },
            IndexFileEntry::Chunk(ce) => {
                match removing {
                    None => {
                        proof {
                            assert(es[i as int] is Chunk && last_repo(es, i as int) is None);
                        }
                        return Err(IndexError::ChunkBeforeRepository);
                    },
                    Some(true) => {
                        proof {
                            assert(!keeps_entry(es.take(i + 1), i as int, repo_path@));
                            assert(out.deep_view() =~~= spec_remove(es.take(i + 1), repo_path@));
                        }
                    },
                    Some(false) => {
                        out.push(IndexFileEntry::Chunk(ce.clone()));
                        proof {
                            assert(keeps_entry(es.take(i + 1), i as int, repo_path@));
                            assert(out.deep_view() =~~= out0.push(es[i as int]));
                            assert(out.deep_view() =~~= spec_remove(es.take(i + 1), repo_path@));
                        }
                    },
                }
            },
        }
        i = i + 1;
    }
    proof {
        assert(es.take(es.len() as int) =~= es);
    }
    Ok(out)
}

/// After a removal, no surviving record belongs to the removed repository: no
/// repository record carries its root path, and no chunk is governed by one
/// that does. The survivors keep their original relative order by
/// construction, being a filtered subsequence.
pub proof fn lemma_remove_complete(entries: Seq<IndexFileEntryModel>, rp: Seq<u8>)
    ensures
        forall|j: int|
            0 <= j < spec_remove(entries, rp).len() ==> !((#[trigger] spec_remove(entries, rp)[j])
                matches IndexFileEntryModel::Repository(r) && r.path == rp),
    decreases entries.len(),
{
    if entries.len() > 0 {
        lemma_remove_complete(entries.drop_last(), rp);
        let pre = spec_remove(entries.drop_last(), rp);
        let whole = spec_remove(entries, rp);
        if keeps_entry(entries, entries.len() - 1, rp) {
            assert forall|j: int| 0 <= j < whole.len() implies !((#[trigger] whole[j]) matches
                IndexFileEntryModel::Repository(r) && r.path == rp) by {
                if j < pre.len() {
                    assert(whole[j] == pre[j]);
                } else {
                    assert(whole[j] == entries.last());
                }
            }
        }
    }
}

// ---------------------------------------------------------------------------
// Incremental sync
// ---------------------------------------------------------------------------

/// What probing a repository against its version control system found.
pub enum RepoProbe {
    /// The root is no longer a usable repository: its whole section vanishes.
    Invalid,
    /// The commit is unchanged: its section is copied as it stands.
    Unchanged,
    /// The commit moved: the record is rewritten with the new commit, chunks
    /// of changed files are dropped, and changed files are re-embedded.
    Changed { commit: Vec<u8>, updated: Vec<Vec<u8>>, removed: Vec<Vec<u8>> },
}

pub enum RepoProbeModel {
    Invalid,
    Unchanged,
    Changed { commit: Seq<u8>, updated: Seq<Seq<u8>>, removed: Seq<Seq<u8>> },
}

impl View for RepoProbe {
    type V = RepoProbeModel;

    open spec fn view(&self) -> RepoProbeModel {
        match self {
            RepoProbe::Invalid => RepoProbeModel::Invalid,
            RepoProbe::Unchanged => RepoProbeModel::Unchanged,
            RepoProbe::Changed { commit, updated, removed } => RepoProbeModel::Changed {
                commit: commit@,
                updated: updated.deep_view(),
                removed: removed.deep_view(),
            },
        }
    }
}

impl DeepView for RepoProbe {
    type V = RepoProbeModel;

    open spec fn deep_view(&self) -> RepoProbeModel {
        self.view()
    }
}

/// One step of the new log: a surviving or rewritten record, or an order to
/// re-chunk and re-embed one changed file and append its fresh chunks here.
pub enum SyncItem {
    Entry(IndexFileEntry),
    Reembed { path: Vec<u8>, window_size: usize, step_size: usize },
}

pub enum SyncItemModel {
    Entry(IndexFileEntryModel),
    Reembed { path: Seq<u8>, window_size: int, step_size: int },
}

impl View for SyncItem {
    type V = SyncItemModel;

    open spec fn view(&self) -> SyncItemModel {
        match self {
            SyncItem::Entry(e) => SyncItemModel::Entry(e@),
            SyncItem::Reembed { path, window_size, step_size } => SyncItemModel::Reembed {
                path: path@,
                window_size: *window_size as int,
                step_size: *step_size as int,
            },
        }
    }
}

impl DeepView for SyncItem {
    type V = SyncItemModel;

    open spec fn deep_view(&self) -> SyncItemModel {
        self.view()
    }
}

/// How many repository records the first `i` entries hold.
pub open spec fn repos_before(entries: Seq<IndexFileEntryModel>, i: int) -> int
    decreases i,
{
    if i <= 0 {
        0
    } else {
        repos_before(entries, i - 1) + if 0 <= i - 1 < entries.len() && entries[i - 1]
            is Repository {
            1int
        } else {
            0int
        }
    }
}

pub proof fn lemma_repos_before_mono(entries: Seq<IndexFileEntryModel>, i: int, m: int)
    requires
        i <= m,
    ensures
        repos_before(entries, i) <= repos_before(entries, m),
    decreases m - i,
{
    if i < m {
        lemma_repos_before_mono(entries, i, m - 1);
    }
}

/// A path list holds this path.
pub open spec fn contains_path(l: Seq<Seq<u8>>, p: Seq<u8>) -> bool {
    exists|k: int| 0 <= k < l.len() && l[k] == p
}

/// The filter a repository record was frozen with.
pub open spec fn filter_of(r: RepositoryEntryModel) -> crate::glob::GlobFilterModel {
    crate::glob::GlobFilterModel { included: r.include_files, excluded: r.exclude_files }
}

/// The re-embed orders of a changed repository: one per updated path that
/// passes its filter, in the diff's order.
pub open spec fn spec_reembeds(u: Seq<Seq<u8>>, r: RepositoryEntryModel) -> Seq<SyncItemModel>
    decreases u.len(),
{
    if u.len() == 0 {
        Seq::empty()
    } else {
        let pre = spec_reembeds(u.drop_last(), r);
        if spec_should_include(filter_of(r), u.last()) {
            pre.push(
                SyncItemModel::Reembed {
                    path: u.last(),
                    window_size: r.chunk_window_size,
                    step_size: r.chunk_step_size,
                },
            )
        } else {
            pre
        }
    }
}

/// What one scanned record contributes to the new log, under the probe of its
/// repository.
pub open spec fn spec_contribution(
    entries: Seq<IndexFileEntryModel>,
    i: int,
    probes: Seq<RepoProbeModel>,
) -> Seq<SyncItemModel> {
    let pidx = repos_before(entries, i + 1) - 1;
    match entries[i] {
        IndexFileEntryModel::Repository(r) => match probes[pidx] {
            RepoProbeModel::Invalid => Seq::empty(),
            RepoProbeModel::Unchanged => seq![
                SyncItemModel::Entry(IndexFileEntryModel::Repository(r)),
            ],
            RepoProbeModel::Changed { commit, updated, removed } => seq![
                SyncItemModel::Entry(
                    IndexFileEntryModel::Repository(RepositoryEntryModel { commit, ..r }),
                ),
            ] + spec_reembeds(updated, r),
        },
        IndexFileEntryModel::Chunk(c) => match probes[pidx] {
            RepoProbeModel::Invalid => Seq::empty(),
            RepoProbeModel::Unchanged => seq![
                SyncItemModel::Entry(IndexFileEntryModel::Chunk(c)),
            ],
            RepoProbeModel::Changed { commit, updated, removed } => if contains_path(
                removed,
                c.path,
            ) || contains_path(updated, c.path) {
                Seq::empty()
            } else {
                seq![SyncItemModel::Entry(IndexFileEntryModel::Chunk(c))]
            },
        },
    }
}

/// The whole new log: each record's contribution, in scan order.
pub open spec fn spec_sync(
    entries: Seq<IndexFileEntryModel>,
    probes: Seq<RepoProbeModel>,
) -> Seq<SyncItemModel>
    decreases entries.len(),
{
    if entries.len() == 0 {
        Seq::empty()
    } else {
        spec_sync(entries.drop_last(), probes) + spec_contribution(
            entries,
            entries.len() - 1,
            probes,
        )
    }
}

/// Every record in the list is well formed.
pub open spec fn entries_wf(entries: Seq<IndexFileEntryModel>) -> bool {
    forall|i: int| 0 <= i < entries.len() ==> (#[trigger] entries[i]).wf()
}

/// Every chunk record has a repository record before it.
pub open spec fn chunks_owned(entries: Seq<IndexFileEntryModel>) -> bool {
    forall|i: int|
        0 <= i < entries.len() && (#[trigger] entries[i]) is Chunk ==> repos_before(entries, i + 1)
            > 0
}

proof fn lemma_repos_before_prefix(entries: Seq<IndexFileEntryModel>, m: int, i: int)
    requires
        0 <= i <= m <= entries.len(),
    ensures
        repos_before(entries.take(m), i) == repos_before(entries, i),
    decreases i,
{
    if i > 0 {
        lemma_repos_before_prefix(entries, m, i - 1);
        assert(entries.take(m)[i - 1] == entries[i - 1]);
    }
}

/// Plans a sync: walks the scanned log once and assembles the new log from
/// each repository's probe. Fails exactly when some chunk has no preceding
/// repository record; nothing else can fail, changed files that cannot be
/// re-read or re-embedded are the caller's per-file concern.
#[verifier::rlimit(100)]
#[verifier::spinoff_prover]
pub fn sync_plan(entries: &Vec<IndexFileEntry>, probes: &Vec<RepoProbe>) -> (r: Result<
    Vec<SyncItem>,
    IndexError,
>)
    requires
        entries_wf(entries.deep_view()),
        probes.deep_view().len() == repos_before(entries.deep_view(), entries@.len() as int),
    ensures
        match r {
            Ok(out) => chunks_owned(entries.deep_view()) && out.deep_view() == spec_sync(
                entries.deep_view(),
                probes.deep_view(),
            ),
            Err(e) => e == IndexError::ChunkBeforeRepository && !chunks_owned(entries.deep_view()),
        },
{
    let ghost es = entries.deep_view();
    let ghost ps = probes.deep_view();
    let pn = probes.len();
    let mut out: Vec<SyncItem> = Vec::new();
    let mut pidx: usize = 0;
    let mut i: usize = 0;
    proof {
        assert(out.deep_view() =~~= spec_sync(es.take(0), ps));
    }
    while i < entries.len()
        invariant
            i <= entries@.len(),
            es == entries.deep_view(),
            ps == probes.deep_view(),
            entries_wf(es),
            pn == ps.len(),
            ps.len() == repos_before(es, es.len() as int),
            pidx == repos_before(es, i as int),
            out.deep_view() == spec_sync(es.take(i as int), ps),
            forall|k: int|
                0 <= k < i && (#[trigger] es[k]) is Chunk ==> repos_before(es, k + 1) > 0,
        decreases entries@.len() - i,
    {
        proof {
            assert(es[i as int] == entries@[i as int]@);
            assert(es.take(i + 1).drop_last() =~= es.take(i as int));
            assert(es.take(i + 1).last() == es[i as int]);
            lemma_repos_before_prefix(es, i + 1, i + 1);
            lemma_repos_before_mono(es, i + 1, es.len() as int);
        }
        let ghost out0 = out.deep_view();
        match &entries[i] {
            IndexFileEntry::Repository(re) => {
                proof {
                    assert(repos_before(es, i + 1) == pidx + 1);
                    assert(pidx < ps.len());
                }
                match &probes[pidx] {
                    RepoProbe::Invalid => {
                        proof {
                            assert(out.deep_view() =~~= spec_sync(es.take(i + 1), ps));
                        }
                    },
                    RepoProbe::Unchanged => {
                        out.push(SyncItem::Entry(IndexFileEntry::Repository(re.clone())));
                        proof {
                            assert(out.deep_view() =~~= out0 + spec_contribution(
                                es.take(i + 1),
                                i as int,
                                ps,
                            ));
                            assert(out.deep_view() =~~= spec_sync(es.take(i + 1), ps));
                        }
                    },
                    RepoProbe::Changed { commit, updated, removed } => {
                        proof {
                            assert(es[i as int] == IndexFileEntryModel::Repository(re@));
                        }
                        let mut rewritten = re.clone();
                        rewritten.commit = crate::bytes::copy_bytes(commit);
                        let ghost rm = es[i as int]->Repository_0;
                        proof {
                            assert(es[i as int].wf());
                            assert(rm.wf());
                            assert(rewritten@ =~~= RepositoryEntryModel {
                                commit: commit@,
                                ..rm
                            });
                        }
                        out.push(SyncItem::Entry(IndexFileEntry::Repository(rewritten)));
                        let filter = crate::glob::GlobPathFilter {
                            include_files: crate::glob::clone_patterns(&re.include_files),
                            exclude_files: crate::glob::clone_patterns(&re.exclude_files),
                        };
                        proof {
                            assert(filter@ =~~= filter_of(rm));
                            assert(filter@.wf());
                        }
                        let ghost out1 = out.deep_view();
                        proof {
                            assert(spec_reembeds(updated.deep_view().take(0), rm)
                                =~= Seq::<SyncItemModel>::empty());
                            assert(out.deep_view() =~~= out1 + spec_reembeds(
                                updated.deep_view().take(0),
                                rm,
                            ));
                        }
                        let mut k: usize = 0;
                        while k < updated.len()
                            invariant
                                k <= updated@.len(),
                                filter@ == filter_of(rm),
                                filter@.wf(),
                                rm.wf(),
                                rm == re@,
                                pidx < pn,
                                out.deep_view() == out1 + spec_reembeds(
                                    updated.deep_view().take(k as int),
                                    rm,
                                ),
                            decreases updated@.len() - k,
                        {
                            proof {
                                let ud = updated.deep_view();
                                assert(ud[k as int] == updated@[k as int]@);
                                assert(ud.take(k + 1).drop_last() =~= ud.take(k as int));
                                assert(ud.take(k + 1).last() == ud[k as int]);
                            }
                            let ghost out2 = out.deep_view();
                            if filter.should_include(updated[k].as_slice()) {
                                out.push(
                                    SyncItem::Reembed {
                                        path: crate::bytes::copy_bytes(&updated[k]),
                                        window_size: re.chunk_window_size,
                                        step_size: re.chunk_step_size,
                                    },
                                );
                                proof {
                                    let ud = updated.deep_view();
                                    let item = SyncItemModel::Reembed {
                                        path: ud[k as int],
                                        window_size: rm.chunk_window_size,
                                        step_size: rm.chunk_step_size,
                                    };
                                    assert(out.deep_view() =~~= out2.push(item));
                                    assert(spec_should_include(filter_of(rm), ud.take(k + 1).last()));
                                    assert(spec_reembeds(ud.take(k + 1), rm) == spec_reembeds(
                                        ud.take(k as int),
                                        rm,
                                    ).push(item));
                                    assert(out.deep_view() =~~= out1 + spec_reembeds(
                                        ud.take(k + 1),
                                        rm,
                                    ));
                                }
                            } else {
                                proof {
                                    assert(out.deep_view() =~~= out1 + spec_reembeds(
                                        updated.deep_view().take(k + 1),
                                        rm,
                                    ));
                                }
                            }
                            k = k + 1;
                        }
                        proof {
                            let ud = updated.deep_view();
                            assert(ud.take(ud.len() as int) =~= ud);
                            assert(ps[pidx as int] == RepoProbeModel::Changed {
                                commit: commit@,
                                updated: ud,
                                removed: removed.deep_view(),
                            });
                            assert(out.deep_view() =~~= out0 + spec_contribution(
                                es.take(i + 1),
                                i as int,
                                ps,
                            ));
                            assert(out.deep_view() =~~= spec_sync(es.take(i + 1), ps));
                        }
                    },
                }
                pidx = pidx + 1;
            },
            IndexFileEntry::Chunk(ce) => {
                if pidx == 0 {
                    proof {
                        assert(es[i as int] is Chunk && repos_before(es, i + 1) == 0);
                    }
                    return Err(IndexError::ChunkBeforeRepository);
                }
                proof {
                    assert(repos_before(es, i + 1) == pidx);
                    assert(pidx - 1 < ps.len());
                }
                match &probes[pidx - 1] {
                    RepoProbe::Invalid => {
                        proof {
                            assert(out.deep_view() =~~= spec_sync(es.take(i + 1), ps));
                        }
                    },
                    RepoProbe::Unchanged => {
                        out.push(SyncItem::Entry(IndexFileEntry::Chunk(ce.clone())));
                        proof {
                            assert(out.deep_view() =~~= out0 + spec_contribution(
                                es.take(i + 1),
                                i as int,
                                ps,
                            ));
                            assert(out.deep_view() =~~= spec_sync(es.take(i + 1), ps));
                        }
                    },
                    RepoProbe::Changed { commit, updated, removed } => {
                        let dropped = contains_path_exec(removed, ce.path.as_slice())
                            || contains_path_exec(updated, ce.path.as_slice());
                        if !dropped {
                            out.push(SyncItem::Entry(IndexFileEntry::Chunk(ce.clone())));
                        }
                        proof {
                            assert(ps[pidx - 1] == RepoProbeModel::Changed {
                                commit: commit@,
                                updated: updated.deep_view(),
                                removed: removed.deep_view(),
                            });
                            assert(out.deep_view() =~~= out0 + spec_contribution(
                                es.take(i + 1),
                                i as int,
                                ps,
                            ));
                            assert(out.deep_view() =~~= spec_sync(es.take(i + 1), ps));
                        }
                    },
                }
            },
        }
        i = i + 1;
    }
    proof {
        assert(es.take(es.len() as int) =~= es);
    }
    Ok(out)
}

/// Whether a path list holds this path.
fn contains_path_exec(l: &Vec<Vec<u8>>, p: &[u8]) -> (r: bool)
    ensures
        r == contains_path(l.deep_view(), p@),
{
    let mut k: usize = 0;
    while k < l.len()
        invariant
            k <= l@.len(),
            forall|t: int| 0 <= t < k ==> l.deep_view()[t] != p@,
        decreases l@.len() - k,
    {
        if bytes_eq(l[k].as_slice(), p) {
            proof {
                assert(l.deep_view()[k as int] == p@);
            }
            return true;
        }
        proof {
            assert(l.deep_view()[k as int] == l@[k as int]@);
        }
        k = k + 1;
    }
    proof {
        if contains_path(l.deep_view(), p@) {
            let w = choose|w: int| 0 <= w < l.deep_view().len() && l.deep_view()[w] == p@;
            assert(l.deep_view()[w] != p@);
        }
    }
    false
}

/// Sync is the identity when nothing changed: with every probe reporting an
/// unchanged commit, the new log holds exactly the old records, so running
/// sync again right away rewrites the same bytes.
pub proof fn lemma_sync_unchanged_identity(
    entries: Seq<IndexFileEntryModel>,
    probes: Seq<RepoProbeModel>,
)
    requires
        probes.len() == repos_before(entries, entries.len() as int),
        chunks_owned(entries),
        forall|k: int| 0 <= k < probes.len() ==> (#[trigger] probes[k]) is Unchanged,
    ensures
        spec_sync(entries, probes) == entries.map_values(
            |e: IndexFileEntryModel| SyncItemModel::Entry(e),
        ),
{
    lemma_sync_unchanged_weak(entries, probes);
}

/// The identity needs only that the probes cover the repositories seen.
proof fn lemma_sync_unchanged_weak(
    entries: Seq<IndexFileEntryModel>,
    probes: Seq<RepoProbeModel>,
)
    requires
        chunks_owned(entries),
        repos_before(entries, entries.len() as int) <= probes.len(),
        forall|k: int| 0 <= k < probes.len() ==> (#[trigger] probes[k]) is Unchanged,
    ensures
        spec_sync(entries, probes) == entries.map_values(
            |e: IndexFileEntryModel| SyncItemModel::Entry(e),
        ),
    decreases entries.len(),
{
    if entries.len() == 0 {
        assert(spec_sync(entries, probes) =~= entries.map_values(
            |e: IndexFileEntryModel| SyncItemModel::Entry(e),
        ));
    } else {
        let n = entries.len() as int;
        let pre = entries.drop_last();
        assert(pre =~= entries.take(n - 1));
        assert(chunks_owned(pre)) by {
            assert forall|i: int| 0 <= i < pre.len() && (#[trigger] pre[i]) is Chunk implies
                repos_before(pre, i + 1) > 0 by {
                assert(pre[i] == entries[i]);
                lemma_repos_before_prefix(entries, n - 1, i + 1);
            }
        }
        assert(repos_before(pre, pre.len() as int) <= probes.len()) by {
            lemma_repos_before_prefix(entries, n - 1, n - 1);
            lemma_repos_before_mono(entries, n - 1, n);
        }
        lemma_sync_unchanged_weak(pre, probes);
        let pidx = repos_before(entries, n) - 1;
        assert(0 <= pidx < probes.len()) by {
            lemma_repos_before_mono(entries, 0, n - 1);
            if entries[n - 1] is Chunk {
                assert(repos_before(entries, n) > 0);
            }
            lemma_repos_before_prefix(entries, n, n);
            lemma_repos_before_mono(entries, n, entries.len() as int);
        }
        assert(probes[pidx] is Unchanged);
        assert(spec_contribution(entries, n - 1, probes) =~= seq![
            SyncItemModel::Entry(entries[n - 1]),
        ]);
        assert(spec_sync(entries, probes) =~= entries.map_values(
            |e: IndexFileEntryModel| SyncItemModel::Entry(e),
        ));
    }
}

} // verus!
