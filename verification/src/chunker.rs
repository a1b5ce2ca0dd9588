//! Line-window chunking: a text is split into lines and cut into fixed-size,
//! fixed-stride overlapping windows. A text with fewer lines than one window
//! yields exactly one undersized chunk at line zero.

use vstd::prelude::*;

use crate::glob::{sep_or_end, spec_join, lemma_sep_or_end, lemma_sep_or_end_exact, lemma_join_last};

verus! {

/// A segment loses one trailing carriage return, as line splitting does.
pub open spec fn strip_cr(seg: Seq<u8>) -> Seq<u8> {
    if seg.len() > 0 && seg.last() == 0x0D {
        seg.drop_last()
    } else {
        seg
    }
}

/// The lines of `s` from position `p` on: segments up to each line feed, each
/// with a trailing carriage return removed; a trailing line feed opens no
/// further empty line.
pub open spec fn lines_from(s: Seq<u8>, p: int) -> Seq<Seq<u8>>
    decreases s.len() - p,
{
    if !(0 <= p < s.len()) {
        seq![]
    } else {
        let j0 = sep_or_end(s, 0x0A, p);
        let j = if j0 < p {
            p
        } else if j0 > s.len() {
            s.len() as int
        } else {
            j0
        };
        if j == s.len() {
            seq![s.subrange(p, j)]
        } else {
            seq![strip_cr(s.subrange(p, j))] + lines_from(s, j + 1)
        }
    }
}

pub open spec fn spec_lines(s: Seq<u8>) -> Seq<Seq<u8>> {
    lines_from(s, 0)
}

/// Splits a text into its lines.
pub fn split_lines(input: &[u8]) -> (r: Vec<Vec<u8>>)
    ensures
        r@.len() == spec_lines(input@).len(),
        forall|k: int| 0 <= k < r@.len() ==> #[trigger] r@[k]@ == spec_lines(input@)[k],
{
    let mut lines: Vec<Vec<u8>> = Vec::new();
    let mut pos: usize = 0;
    while pos < input.len()
        invariant
            pos <= input@.len(),
            lines_from(input@, 0) =~= lines.deep_view() + lines_from(input@, pos as int),
        decreases input@.len() - pos,
    {
        let mut j = pos;
        while j < input.len() && input[j] != 0x0A
            invariant
                pos <= j <= input@.len(),
                forall|k: int| pos <= k < j ==> input@[k] != 0x0A,
            decreases input@.len() - j,
        {
            j = j + 1;
        }
        proof {
            lemma_sep_or_end_exact(input@, 0x0A, pos as int, j as int);
        }
        let mut seg: Vec<u8> = Vec::new();
        let mut k = pos;
        let seg_end = if j < input.len() && j > pos && input[j - 1] == 0x0D {
            j - 1
        } else {
            j
        };
        while k < seg_end
            invariant
                pos <= k <= seg_end <= input@.len(),
                seg@ == input@.subrange(pos as int, k as int),
            decreases seg_end - k,
        {
            seg.push(input[k]);
            proof {
                assert(seg@ =~= input@.subrange(pos as int, k + 1));
            }
            k = k + 1;
        }
        proof {
            assert(seg@ =~= input@.subrange(pos as int, seg_end as int));
            if j < input@.len() {
                assert(strip_cr(input@.subrange(pos as int, j as int)) =~= input@.subrange(
                    pos as int,
                    seg_end as int,
                ));
            }
        }
        let ghost lines0 = lines.deep_view();
        lines.push(seg);
        proof {
            assert(lines.deep_view() =~~= lines0 + seq![seg@]);
        }
        if j >= input.len() {
            proof {
                assert(lines_from(input@, pos as int) =~= seq![
                    input@.subrange(pos as int, j as int),
                ]);
                assert(lines_from(input@, 0) =~~= lines.deep_view() + lines_from(
                    input@,
                    input@.len() as int,
                ));
            }
            pos = input.len();
        } else {
            proof {
                assert(lines_from(input@, pos as int) =~= seq![
                    strip_cr(input@.subrange(pos as int, j as int)),
                ] + lines_from(input@, j + 1));
                assert(lines_from(input@, 0) =~~= lines.deep_view() + lines_from(input@, j + 1));
            }
            pos = j + 1;
        }
    }
    proof {
        assert(lines_from(input@, pos as int) =~= Seq::<Seq<u8>>::empty());
        assert(lines.deep_view() =~= lines.deep_view() + Seq::<Seq<u8>>::empty());
    }
    lines
}

/// Joins the lines `from .. to` back into a text with line feeds between.
pub fn join_lines(lines: &Vec<Vec<u8>>, from: usize, to: usize) -> (r: Vec<u8>)
    requires
        from <= to <= lines@.len(),
    ensures
        r@ == spec_join(lines.deep_view().subrange(from as int, to as int), 0x0A),
{
    let ghost parts = lines.deep_view().subrange(from as int, to as int);
    let mut out: Vec<u8> = Vec::new();
    let mut i = from;
    while i < to
        invariant
            from <= i <= to <= lines@.len(),
            parts == lines.deep_view().subrange(from as int, to as int),
            i > from ==> out@ == spec_join(parts.subrange(0, i - from), 0x0A),
            i == from ==> out@.len() == 0,
        decreases to - i,
    {
        if i > from {
            out.push(0x0A);
        }
        let tok = &lines[i];
        let ghost out0 = out@;
        let mut k: usize = 0;
        while k < tok.len()
            invariant
                k <= tok@.len(),
                out@ == out0 + tok@.subrange(0, k as int),
            decreases tok@.len() - k,
        {
            out.push(tok[k]);
            proof {
                assert(out@ =~= out0 + tok@.subrange(0, k + 1));
            }
            k = k + 1;
        }
        proof {
            assert(tok@.subrange(0, tok@.len() as int) =~= tok@);
            assert(parts[i - from] == tok@);
            if i == from {
                assert(parts.subrange(0, 1) =~= seq![parts[0]]);
                assert(out@ =~= parts[0]);
                assert(spec_join(parts.subrange(0, 1), 0x0A) == parts[0]);
            } else {
                assert(parts.subrange(0, i - from + 1).drop_last() =~= parts.subrange(
                    0,
                    i - from,
                ));
                assert(parts.subrange(0, i - from + 1).last() == parts[i - from]);
                lemma_join_last(parts.subrange(0, i - from + 1), 0x0A);
                assert(out@ =~= spec_join(parts.subrange(0, i - from), 0x0A) + seq![0x0Au8]
                    + parts[i - from]);
            }
        }
        i = i + 1;
    }
    proof {
        if from == to {
            assert(parts =~= Seq::<Seq<u8>>::empty());
        } else {
            assert(parts.subrange(0, to - from) =~= parts);
        }
    }
    out
}

/// One window of consecutive lines, identified by its starting line.
pub struct Chunk<T> {
    pub line: usize,
    pub data: T,
}

/// Cuts texts into overlapping line windows of `window_size` lines, one
/// window starting every `step_size` lines.
pub struct Chunker {
    pub window_size: usize,
    pub step_size: usize,
}

/// How many chunks a text of `n` lines yields.
pub open spec fn spec_chunk_count(n: int, window: int, step: int) -> int {
    if n < window {
        1
    } else {
        (n - window) / step + 1
    }
}

impl Chunker {
    pub fn new(window_size: usize, step_size: usize) -> (r: Self)
        requires
            window_size >= 1,
            step_size >= 1,
        ensures
            r.window_size == window_size,
            r.step_size == step_size,
    {
        Chunker { window_size, step_size }
    }

    /// All line windows of the input, in order: the `k`-th chunk starts at
    /// line `k * step_size` and holds the next `window_size` lines joined by
    /// line feeds; an input with fewer lines than one window yields a single
    /// undersized chunk of all its lines.
    pub fn apply(&self, input: &[u8]) -> (r: Vec<Chunk<Vec<u8>>>)
        requires
            self.window_size >= 1,
            self.step_size >= 1,
        ensures
            ({
                let ls = spec_lines(input@);
                let w = self.window_size as int;
                let st = self.step_size as int;
                &&& r@.len() == spec_chunk_count(ls.len() as int, w, st)
                &&& (ls.len() < w ==> r@.len() == 1 && r@[0].line == 0 && r@[0].data@ == spec_join(
                    ls,
                    0x0A,
                ))
                &&& (ls.len() >= w ==> forall|k: int|
                    0 <= k < r@.len() ==> (#[trigger] r@[k]).line == k * st && r@[k].data@
                        == spec_join(ls.subrange(k * st, k * st + w), 0x0A))
            }),
    {
        let lines = split_lines(input);
        let ghost ls = spec_lines(input@);
        proof {
            assert(lines.deep_view() =~~= ls);
        }
        let n = lines.len();
        let w = self.window_size;
        let st = self.step_size;
        if n < w {
            let data = join_lines(&lines, 0, n);
            proof {
                assert(lines.deep_view().subrange(0, n as int) =~= lines.deep_view());
            }
            let mut r: Vec<Chunk<Vec<u8>>> = Vec::new();
            r.push(Chunk { line: 0, data });
            return r;
        }
        let count = (n - w) / st + 1;
        let mut r: Vec<Chunk<Vec<u8>>> = Vec::new();
        let mut k: usize = 0;
        while k < count
            invariant
                0 <= k <= count,
                st >= 1,
                w >= 1,
                w <= n == lines@.len(),
                count as int == (n - w) as int / st as int + 1,
                lines.deep_view() == ls,
                r@.len() == k,
                forall|i: int|
                    0 <= i < k ==> (#[trigger] r@[i]).line == i * st as int && r@[i].data@
                        == spec_join(ls.subrange(i * st as int, i * st as int + w as int), 0x0A),
            decreases count - k,
        {
            proof {
                assert(k as int <= (n - w) as int / st as int);
                assert(k as int * st as int <= ((n - w) as int / st as int) * st as int)
                    by (nonlinear_arith)
                    requires
                        k as int <= (n - w) as int / st as int,
                        st >= 1,
                ;
                vstd::arithmetic::div_mod::lemma_fundamental_div_mod((n - w) as int, st as int);
                assert(((n - w) as int / st as int) * st as int <= (n - w) as int) by {
                    assert((n - w) as int % st as int >= 0);
                }
            }
            let start = k * st;
            let data = join_lines(&lines, start, start + w);
            r.push(Chunk { line: start, data });
            k = k + 1;
        }
        r
    }
}

} // verus!
