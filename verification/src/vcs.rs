//! Decoding the version-control adapter's path diff: each output line carries
//! a status letter, a tab, and a path; deletions and all other statuses split
//! into the removed and updated path sets.

use vstd::prelude::*;

use crate::chunker::spec_lines;
use crate::glob::{sep_or_end, lemma_sep_or_end, lemma_sep_or_end_exact};

verus! {

/// ASCII whitespace, as far as diff output is concerned.
pub open spec fn is_ws(b: u8) -> bool {
    b == 0x20 || b == 0x09 || b == 0x0A || b == 0x0D
}

pub open spec fn all_ws(l: Seq<u8>) -> bool {
    forall|i: int| 0 <= i < l.len() ==> is_ws(#[trigger] l[i])
}

/// How one diff line is classified: blank or tabless lines say nothing, a
/// leading `D` marks a removal, anything else an update.
pub enum DiffKind {
    Skip,
    Updated,
    Removed,
}

pub open spec fn spec_diff_kind(l: Seq<u8>) -> DiffKind {
    let j = sep_or_end(l, 0x09, 0);
    if all_ws(l) {
        DiffKind::Skip
    } else if j == l.len() {
        DiffKind::Skip
    } else if j >= 1 && l[0] == 0x44 {
        DiffKind::Removed
    } else {
        DiffKind::Updated
    }
}

/// The path of a classified diff line: everything after the first tab.
pub open spec fn spec_diff_path(l: Seq<u8>) -> Seq<u8> {
    l.subrange(sep_or_end(l, 0x09, 0) + 1, l.len() as int)
}

/// The updated paths of the diff output, in order.
pub open spec fn spec_diff_updated(lines: Seq<Seq<u8>>) -> Seq<Seq<u8>>
    decreases lines.len(),
{
    if lines.len() == 0 {
        Seq::empty()
    } else {
        let pre = spec_diff_updated(lines.drop_last());
        if spec_diff_kind(lines.last()) is Updated {
            pre.push(spec_diff_path(lines.last()))
        } else {
            pre
        }
    }
}

/// The removed paths of the diff output, in order.
pub open spec fn spec_diff_removed(lines: Seq<Seq<u8>>) -> Seq<Seq<u8>>
    decreases lines.len(),
{
    if lines.len() == 0 {
        Seq::empty()
    } else {
        let pre = spec_diff_removed(lines.drop_last());
        if spec_diff_kind(lines.last()) is Removed {
            pre.push(spec_diff_path(lines.last()))
        } else {
            pre
        }
    }
}

/// Splits a `--name-status` diff output into its updated and removed path
/// sets, in output order.
pub fn parse_diff_output(out: &[u8]) -> (r: (Vec<Vec<u8>>, Vec<Vec<u8>>))
    ensures
        r.0.deep_view() == spec_diff_updated(spec_lines(out@)),
        r.1.deep_view() == spec_diff_removed(spec_lines(out@)),
{
    let lines = crate::chunker::split_lines(out);
    let ghost ls = spec_lines(out@);
    proof {
        assert(lines.deep_view() =~~= ls);
    }
    let mut updated: Vec<Vec<u8>> = Vec::new();
    let mut removed: Vec<Vec<u8>> = Vec::new();
    let mut i: usize = 0;
    proof {
        assert(updated.deep_view() =~~= spec_diff_updated(ls.take(0)));
        assert(removed.deep_view() =~~= spec_diff_removed(ls.take(0)));
    }
    while i < lines.len()
        invariant
            i <= lines@.len(),
            ls == lines.deep_view(),
            updated.deep_view() == spec_diff_updated(ls.take(i as int)),
            removed.deep_view() == spec_diff_removed(ls.take(i as int)),
        decreases lines@.len() - i,
    {
        proof {
            assert(ls[i as int] == lines@[i as int]@);
            assert(ls.take(i + 1).drop_last() =~= ls.take(i as int));
            assert(ls.take(i + 1).last() == ls[i as int]);
        }
        let l = &lines[i];
        let ghost lv = l@;
        // blank check
        let mut blank = true;
        let mut k: usize = 0;
        while k < l.len()
            invariant
                k <= lv.len(),
                lv == l@,
                blank == all_ws(lv.subrange(0, k as int)),
            decreases lv.len() - k,
        {
            let b = l[k];
            proof {
                assert(lv.subrange(0, k + 1).drop_last() =~= lv.subrange(0, k as int));
                assert(lv.subrange(0, k + 1).last() == lv[k as int]);
                assert forall|t: int| 0 <= t < k + 1 implies is_ws(
                    #[trigger] lv.subrange(0, k + 1)[t],
                ) == (if t < k {
                    is_ws(lv.subrange(0, k as int)[t])
                } else {
                    is_ws(lv[k as int])
                }) by {}
            }
            if !(b == 0x20 || b == 0x09 || b == 0x0A || b == 0x0D) {
                blank = false;
            }
            proof {
                if !is_ws(lv[k as int]) {
                    assert(!all_ws(lv.subrange(0, k + 1))) by {
                        assert(lv.subrange(0, k + 1)[k as int] == lv[k as int]);
                    }
                } else {
                    assert(all_ws(lv.subrange(0, k + 1)) == all_ws(lv.subrange(0, k as int)));
                }
            }
            k = k + 1;
        }
        proof {
            assert(lv.subrange(0, lv.len() as int) =~= lv);
        }
        let mut j: usize = 0;
        while j < l.len() && l[j] != 0x09
            invariant
                j <= lv.len(),
                lv == l@,
                forall|t: int| 0 <= t < j ==> lv[t] != 0x09,
            decreases lv.len() - j,
        {
            j = j + 1;
        }
        proof {
            lemma_sep_or_end_exact(lv, 0x09, 0, j as int);
        }
        if !blank && j < l.len() {
            let mut path: Vec<u8> = Vec::new();
            let mut t = j + 1;
            while t < l.len()
                invariant
                    j + 1 <= t <= lv.len(),
                    lv == l@,
                    path@ == lv.subrange(j + 1, t as int),
                decreases lv.len() - t,
            {
                path.push(l[t]);
                proof {
                    assert(path@ =~= lv.subrange(j + 1, t + 1));
                }
                t = t + 1;
            }
            proof {
                assert(path@ =~= spec_diff_path(lv));
            }
            if j >= 1 && l[0] == 0x44 {
                let ghost r0 = removed.deep_view();
                removed.push(path);
                proof {
                    assert(spec_diff_kind(lv) is Removed);
                    assert(removed.deep_view() =~~= r0.push(spec_diff_path(lv)));
                    assert(removed.deep_view() =~~= spec_diff_removed(ls.take(i + 1)));
                    assert(updated.deep_view() =~~= spec_diff_updated(ls.take(i + 1)));
                }
            } else {
                let ghost u0 = updated.deep_view();
                updated.push(path);
                proof {
                    assert(spec_diff_kind(lv) is Updated);
                    assert(updated.deep_view() =~~= u0.push(spec_diff_path(lv)));
                    assert(updated.deep_view() =~~= spec_diff_updated(ls.take(i + 1)));
                    assert(removed.deep_view() =~~= spec_diff_removed(ls.take(i + 1)));
                }
            }
        } else {
            proof {
                assert(spec_diff_kind(lv) is Skip);
                assert(updated.deep_view() =~~= spec_diff_updated(ls.take(i + 1)));
                assert(removed.deep_view() =~~= spec_diff_removed(ls.take(i + 1)));
            }
        }
        i = i + 1;
    }
    proof {
        assert(ls.take(ls.len() as int) =~= ls);
    }
    (updated, removed)
}

} // verus!
