//! Wildcard path patterns and include/exclude path filters.
//!
//! A pattern is compiled from its text into the literal tokens between `*`
//! wildcards plus two anchoring flags; matching is specified declaratively
//! (tokens occur in order, anchored ends fixed) and the executable matcher is
//! proved equivalent to that specification.

use vstd::prelude::*;

use crate::bytes::{eq_at, find_sub, is_prefix, is_suffix, occurs_at};

verus! {

broadcast use crate::bytes::lemma_vec_u8_deep_view;

/// The wildcard byte `*`.
pub open spec fn star() -> u8 {
    0x2A
}

// ---------------------------------------------------------------------------
// Splitting and joining on the wildcard
// ---------------------------------------------------------------------------

/// The first occurrence of `sep` in `s` at or after `p`, or `s.len()`.
pub open spec fn sep_or_end(s: Seq<u8>, sep: u8, p: int) -> int
    decreases s.len() - p,
{
    if 0 <= p < s.len() {
        if s[p] == sep {
            p
        } else {
            sep_or_end(s, sep, p + 1)
        }
    } else {
        p
    }
}

pub proof fn lemma_sep_or_end(s: Seq<u8>, sep: u8, p: int)
    requires
        0 <= p <= s.len(),
    ensures
        p <= sep_or_end(s, sep, p) <= s.len(),
        forall|k: int| p <= k < sep_or_end(s, sep, p) ==> s[k] != sep,
        sep_or_end(s, sep, p) == s.len() || s[sep_or_end(s, sep, p)] == sep,
    decreases s.len() - p,
{
    if p < s.len() && s[p] != sep {
        lemma_sep_or_end(s, sep, p + 1);
    }
}

/// If the bytes of `s` from `p` up to `m` avoid `sep` and `m` carries `sep`
/// (or is the end), the scan stops exactly at `m`.
pub proof fn lemma_sep_or_end_exact(s: Seq<u8>, sep: u8, p: int, m: int)
    requires
        0 <= p <= m <= s.len(),
        forall|k: int| p <= k < m ==> s[k] != sep,
        m == s.len() || s[m] == sep,
    ensures
        sep_or_end(s, sep, p) == m,
    decreases m - p,
{
    if p < m {
        lemma_sep_or_end_exact(s, sep, p + 1, m);
    }
}

/// The segments of `s` from `p` on, split on `sep`.
pub open spec fn split_from(s: Seq<u8>, sep: u8, p: int) -> Seq<Seq<u8>>
    decreases s.len() - p,
{
    if 0 <= p <= s.len() {
        let j0 = sep_or_end(s, sep, p);
        // The scan's result always lies in `[p, s.len()]`; clamping it there
        // makes that shape definitional.
        let j = if j0 < p {
            p
        } else if j0 > s.len() {
            s.len() as int
        } else {
            j0
        };
        if j == s.len() {
            seq![s.subrange(p, j)]
        } else {
            seq![s.subrange(p, j)] + split_from(s, sep, j + 1)
        }
    } else {
        seq![]
    }
}

pub open spec fn spec_split(s: Seq<u8>, sep: u8) -> Seq<Seq<u8>> {
    split_from(s, sep, 0)
}

/// Segments joined back with `sep` between them.
pub open spec fn spec_join(parts: Seq<Seq<u8>>, sep: u8) -> Seq<u8>
    decreases parts.len(),
{
    if parts.len() == 0 {
        Seq::empty()
    } else if parts.len() == 1 {
        parts[0]
    } else {
        parts[0] + seq![sep] + spec_join(parts.skip(1), sep)
    }
}

pub proof fn lemma_join_last(parts: Seq<Seq<u8>>, sep: u8)
    requires
        parts.len() >= 2,
    ensures
        spec_join(parts, sep) == spec_join(parts.drop_last(), sep) + seq![sep] + parts.last(),
    decreases parts.len(),
{
    if parts.len() == 2 {
        assert(parts.skip(1) =~= seq![parts[1]]);
        assert(parts.drop_last() =~= seq![parts[0]]);
        assert(spec_join(parts.skip(1), sep) == parts[1]);
    } else {
        lemma_join_last(parts.skip(1), sep);
        assert(parts.skip(1).drop_last() =~= parts.drop_last().skip(1));
        assert(parts.skip(1).last() == parts.last());
        assert(parts.drop_last()[0] == parts[0]);
        assert(spec_join(parts.drop_last(), sep) == parts[0] + seq![sep] + spec_join(
            parts.drop_last().skip(1),
            sep,
        ));
        assert(spec_join(parts, sep) =~= spec_join(parts.drop_last(), sep) + seq![sep]
            + parts.last());
    }
}

pub proof fn lemma_split_from_props(s: Seq<u8>, sep: u8, p: int)
    requires
        0 <= p <= s.len(),
    ensures
        split_from(s, sep, p).len() >= 1,
        forall|i: int|
            0 <= i < split_from(s, sep, p).len() ==> !(#[trigger] split_from(s, sep, p)[i]).contains(
                sep,
            ),
        spec_join(split_from(s, sep, p), sep) == s.subrange(p, s.len() as int),
        split_from(s, sep, p)[0] == s.subrange(p, sep_or_end(s, sep, p)),
        split_from(s, sep, p).last().len() == 0 <==> (p == s.len() || s[s.len() - 1] == sep),
    decreases s.len() - p,
{
    lemma_sep_or_end(s, sep, p);
    let j = sep_or_end(s, sep, p);
    let seg = s.subrange(p, j);
    assert(!seg.contains(sep)) by {
        if seg.contains(sep) {
            let k = choose|k: int| 0 <= k < seg.len() && seg[k] == sep;
            assert(s[p + k] == sep);
        }
    }
    if j == s.len() {
        assert(split_from(s, sep, p) =~= seq![seg]);
        assert(spec_join(seq![seg], sep) == seg);
        assert(seg.len() == 0 <==> p == s.len() || s[s.len() - 1] == sep) by {
            if p < s.len() {
                assert(s[s.len() - 1] != sep);
            }
        }
    } else {
        lemma_split_from_props(s, sep, j + 1);
        let rest = split_from(s, sep, j + 1);
        let r = split_from(s, sep, p);
        assert(r =~= seq![seg] + rest);
        assert(r.len() >= 2);
        assert forall|i: int| 0 <= i < r.len() implies !(#[trigger] r[i]).contains(sep) by {
            if i >= 1 {
                assert(r[i] == rest[i - 1]);
            }
        }
        assert(r.skip(1) =~= rest);
        assert(spec_join(r, sep) == seg + seq![sep] + spec_join(rest, sep));
        assert(seg + seq![sep] + s.subrange(j + 1, s.len() as int) =~= s.subrange(
            p,
            s.len() as int,
        )) by {
            assert(s[j] == sep);
        }
        assert(r.last() == rest.last());
        assert(j + 1 <= s.len() - 1 || j + 1 == s.len());
    }
}

/// Splitting the join of `sep`-free segments gives the segments back.
pub proof fn lemma_split_join(s: Seq<u8>, sep: u8, p: int, parts: Seq<Seq<u8>>)
    requires
        0 <= p <= s.len(),
        parts.len() >= 1,
        forall|i: int| 0 <= i < parts.len() ==> !(#[trigger] parts[i]).contains(sep),
        s.subrange(p, s.len() as int) == spec_join(parts, sep),
    ensures
        split_from(s, sep, p) == parts,
    decreases parts.len(),
{
    let t0 = parts[0];
    let m = p + t0.len();
    assert forall|k: int| 0 <= k < s.len() - p implies s[p + k] == spec_join(parts, sep)[k] by {
        assert(s.subrange(p, s.len() as int)[k] == s[p + k]);
    }
    if parts.len() == 1 {
        assert(spec_join(parts, sep) == t0);
        assert(m == s.len());
        assert forall|k: int| p <= k < m implies s[k] != sep by {
            assert(s[k] == t0[k - p]);
            assert(!t0.contains(sep));
        }
        lemma_sep_or_end_exact(s, sep, p, m);
        assert(split_from(s, sep, p) =~= seq![s.subrange(p, m)]);
        assert(s.subrange(p, m) =~= t0);
    } else {
        let rest = parts.skip(1);
        assert(spec_join(parts, sep) == t0 + seq![sep] + spec_join(rest, sep));
        assert forall|k: int| p <= k < m implies s[k] != sep by {
            assert(s[k] == spec_join(parts, sep)[k - p]);
            assert(spec_join(parts, sep)[k - p] == t0[k - p]);
            assert(!t0.contains(sep));
        }
        assert(s[m] == sep) by {
            assert(s[m] == spec_join(parts, sep)[t0.len() as int]);
        }
        assert(m < s.len());
        lemma_sep_or_end_exact(s, sep, p, m);
        assert(s.subrange(m + 1, s.len() as int) =~= spec_join(rest, sep)) by {
            assert forall|k: int| 0 <= k < s.len() - m - 1 implies s[m + 1 + k] == spec_join(
                rest,
                sep,
            )[k] by {
                assert(s[m + 1 + k] == spec_join(parts, sep)[t0.len() + 1 + k]);
            }
        }
        lemma_split_join(s, sep, m + 1, rest);
        assert(split_from(s, sep, p) =~= seq![s.subrange(p, m)] + split_from(s, sep, m + 1));
        assert(s.subrange(p, m) =~= t0);
    }
}

// ---------------------------------------------------------------------------
// Patterns
// ---------------------------------------------------------------------------

/// The mathematical content of a compiled pattern.
pub ghost struct GlobPatternModel {
    pub tokens: Seq<Seq<u8>>,
    pub matches_bos: bool,
    pub matches_eos: bool,
}

impl GlobPatternModel {
    /// Compilation invariant: at least one token, tokens carry no wildcard,
    /// and the anchoring flags agree with the token shape, so that the
    /// pattern's text can be reconstructed.
    pub open spec fn wf(self) -> bool {
        &&& self.tokens.len() >= 1
        &&& forall|i: int| 0 <= i < self.tokens.len() ==> !(#[trigger] self.tokens[i]).contains(
            star(),
        )
        &&& self.matches_bos == (self.tokens.len() == 1 || self.tokens[0].len() > 0)
        &&& self.matches_eos == (self.tokens.len() == 1 || self.tokens.last().len() > 0)
    }

    /// The pattern's text: its tokens joined by the wildcard.
    pub open spec fn text(self) -> Seq<u8> {
        spec_join(self.tokens, star())
    }
}

/// What compiling a pattern text yields.
pub open spec fn spec_compile(p: Seq<u8>) -> GlobPatternModel {
    GlobPatternModel {
        tokens: spec_split(p, star()),
        matches_bos: !(p.len() > 0 && p[0] == star()),
        matches_eos: !(p.len() > 0 && p[s_last(p)] == star()),
    }
}

pub open spec fn s_last(p: Seq<u8>) -> int {
    p.len() - 1
}

pub proof fn lemma_compile_wf(p: Seq<u8>)
    ensures
        spec_compile(p).wf(),
        spec_compile(p).text() == p,
{
    lemma_split_from_props(p, star(), 0);
    let ts = spec_split(p, star());
    assert(p.subrange(0, p.len() as int) =~= p);
    lemma_sep_or_end(p, star(), 0);
    let j = sep_or_end(p, star(), 0);
    // Anchor at the start: the first segment is empty exactly when the text
    // starts with the wildcard, unless there is no wildcard at all.
    if j == p.len() {
        assert(ts =~= seq![p.subrange(0, j)]);
        assert(ts.len() == 1);
    } else {
        assert(ts[0] == p.subrange(0, j));
        assert(ts[0].len() == 0 <==> j == 0);
        assert(p[j] == star());
        assert(ts.len() >= 2) by {
            lemma_split_from_props(p, star(), j + 1);
            assert(ts =~= seq![p.subrange(0, j)] + split_from(p, star(), j + 1));
        }
        if j == 0 {
            assert(p[0] == star());
        } else {
            assert(p[0] != star());
        }
    }
    // Anchor at the end, from the last-segment characterization.
    if ts.len() >= 2 {
        assert(p.len() > 0) by {
            if p.len() == 0 {
                assert(sep_or_end(p, star(), 0) == 0);
            }
        }
    }
}

/// A pattern's text compiles back to the pattern.
pub proof fn lemma_pattern_text_roundtrip(m: GlobPatternModel)
    requires
        m.wf(),
    ensures
        spec_compile(m.text()) == m,
{
    let p = m.text();
    assert(p.subrange(0, p.len() as int) =~= p);
    lemma_split_join(p, star(), 0, m.tokens);
    if m.tokens.len() == 1 {
        assert(p == m.tokens[0]);
        if p.len() > 0 {
            assert(!m.tokens[0].contains(star()));
            assert(p[0] != star() && p[s_last(p)] != star());
        }
    } else {
        lemma_join_last(m.tokens, star());
        let head = m.tokens[0];
        assert(p[0] == spec_join(m.tokens, star())[0]);
        if head.len() > 0 {
            assert(spec_join(m.tokens, star())[0] == head[0]) by {
                assert(spec_join(m.tokens, star()) == head + seq![star()] + spec_join(
                    m.tokens.skip(1),
                    star(),
                ));
            }
            assert(!head.contains(star()));
            assert(p[0] != star());
        } else {
            assert(spec_join(m.tokens, star())[0] == star()) by {
                assert(spec_join(m.tokens, star()) == head + seq![star()] + spec_join(
                    m.tokens.skip(1),
                    star(),
                ));
            }
        }
        let tl = m.tokens.last();
        let pre = spec_join(m.tokens.drop_last(), star());
        assert(p == pre + seq![star()] + tl);
        if tl.len() > 0 {
            assert(p[s_last(p)] == tl[tl.len() - 1]);
            assert(!tl.contains(star()));
            assert(p[s_last(p)] != star());
        } else {
            assert(p[s_last(p)] == star());
        }
        assert(p.len() > 0);
    }
    assert(spec_compile(p).tokens == m.tokens);
    assert(spec_compile(p).matches_bos == m.matches_bos);
    assert(spec_compile(p).matches_eos == m.matches_eos);
}

/// A compiled wildcard path pattern: the literal tokens between `*`s, and
/// whether the match is anchored at the beginning and at the end.
pub struct GlobPathPattern {
    tokens: Vec<Vec<u8>>,
    matches_bos: bool,
    matches_eos: bool,
}

impl View for GlobPathPattern {
    type V = GlobPatternModel;

    closed spec fn view(&self) -> GlobPatternModel {
        GlobPatternModel {
            tokens: self.tokens.deep_view(),
            matches_bos: self.matches_bos,
            matches_eos: self.matches_eos,
        }
    }
}

// ---------------------------------------------------------------------------
// Matching semantics
// ---------------------------------------------------------------------------

/// Tokens `ti..tend` occur in order within `s[p..hi]`, with free room before,
/// between and after them.
pub open spec fn match_mid(
    tokens: Seq<Seq<u8>>,
    ti: int,
    tend: int,
    s: Seq<u8>,
    p: int,
    hi: int,
) -> bool
    decreases tend - ti,
{
    if ti >= tend {
        true
    } else {
        exists|j: int|
            p <= j && j + tokens[ti].len() <= hi && occurs_at(s, tokens[ti], j) && match_mid(
                tokens,
                ti + 1,
                tend,
                s,
                j + tokens[ti].len(),
                hi,
            )
    }
}

/// The declarative matching relation: the path decomposes into the pattern's
/// tokens in order with arbitrary gaps, the first gap empty when the pattern
/// is anchored at the start and the last gap empty when anchored at the end.
pub open spec fn pattern_matches(m: GlobPatternModel, s: Seq<u8>) -> bool {
    let ts = m.tokens;
    let n = ts.len() as int;
    if m.matches_bos && m.matches_eos {
        if n == 1 {
            s == ts[0]
        } else {
            &&& is_prefix(ts[0], s)
            &&& is_suffix(ts[n - 1], s)
            &&& ts[0].len() + ts[n - 1].len() <= s.len()
            &&& match_mid(ts, 1, n - 1, s, ts[0].len() as int, s.len() - ts[n - 1].len())
        }
    } else if m.matches_bos {
        is_prefix(ts[0], s) && match_mid(ts, 1, n, s, ts[0].len() as int, s.len() as int)
    } else if m.matches_eos {
        is_suffix(ts[n - 1], s) && match_mid(ts, 0, n - 1, s, 0, s.len() - ts[n - 1].len())
    } else {
        match_mid(ts, 0, n, s, 0, s.len() as int)
    }
}

/// A later start position only removes room: matching from `p2` implies
/// matching from any earlier `p`.
pub proof fn lemma_match_mid_mono(
    tokens: Seq<Seq<u8>>,
    ti: int,
    tend: int,
    s: Seq<u8>,
    p: int,
    p2: int,
    hi: int,
)
    requires
        p <= p2,
        match_mid(tokens, ti, tend, s, p2, hi),
    ensures
        match_mid(tokens, ti, tend, s, p, hi),
{
    if ti < tend {
        let j = choose|j: int|
            p2 <= j && j + tokens[ti].len() <= hi && occurs_at(s, tokens[ti], j) && match_mid(
                tokens,
                ti + 1,
                tend,
                s,
                j + tokens[ti].len(),
                hi,
            );
        assert(p <= j && j + tokens[ti].len() <= hi && occurs_at(s, tokens[ti], j) && match_mid(
            tokens,
            ti + 1,
            tend,
            s,
            j + tokens[ti].len(),
            hi,
        ));
    }
}

impl GlobPathPattern {
    /// Compiles a pattern text: tokens are the text split on `*`, and a match
    /// is anchored at an end unless the text has a `*` there.
    pub fn new(pattern: &[u8]) -> (r: Self)
        ensures
            r@ == spec_compile(pattern@),
            r@.wf(),
            r@.text() == pattern@,
    {
        proof {
            lemma_compile_wf(pattern@);
        }
        let matches_bos = !(pattern.len() > 0 && pattern[0] == 0x2A);
        let matches_eos = !(pattern.len() > 0 && pattern[pattern.len() - 1] == 0x2A);
        let mut tokens: Vec<Vec<u8>> = Vec::new();
        let mut pos: usize = 0;
        let mut done = false;
        while !done
            invariant
                pos <= pattern@.len(),
                done ==> tokens.deep_view() =~~= split_from(pattern@, star(), 0),
                !done ==> split_from(pattern@, star(), 0) =~~= tokens.deep_view() + split_from(
                    pattern@,
                    star(),
                    pos as int,
                ),
            decreases pattern@.len() - pos + (if done { 0int } else { 1int }),
        {
            let mut j = pos;
            while j < pattern.len() && pattern[j] != 0x2A
                invariant
                    pos <= j <= pattern@.len(),
                    forall|k: int| pos <= k < j ==> pattern@[k] != star(),
                decreases pattern@.len() - j,
            {
                j = j + 1;
            }
            proof {
                lemma_sep_or_end_exact(pattern@, star(), pos as int, j as int);
            }
            let mut seg: Vec<u8> = Vec::new();
            let mut k = pos;
            while k < j
                invariant
                    pos <= k <= j <= pattern@.len(),
                    seg@ == pattern@.subrange(pos as int, k as int),
                decreases j - k,
            {
                seg.push(pattern[k]);
                proof {
                    assert(seg@ =~= pattern@.subrange(pos as int, k + 1));
                }
                k = k + 1;
            }
            proof {
                assert(seg@ =~= pattern@.subrange(pos as int, j as int));
            }
            let ghost tokens0 = tokens.deep_view();
            tokens.push(seg);
            proof {
                assert(tokens.deep_view() =~~= tokens0 + seq![seg@]);
            }
            if j == pattern.len() {
                proof {
                    assert(split_from(pattern@, star(), pos as int) =~= seq![
                        pattern@.subrange(pos as int, j as int),
                    ]);
                    assert(tokens.deep_view() =~~= split_from(pattern@, star(), 0));
                }
                done = true;
            } else {
                proof {
                    assert(split_from(pattern@, star(), pos as int) =~= seq![
                        pattern@.subrange(pos as int, j as int),
                    ] + split_from(pattern@, star(), j + 1));
                }
                pos = j + 1;
            }
        }
        let r = GlobPathPattern { tokens, matches_bos, matches_eos };
        proof {
            assert(r@ =~~= spec_compile(pattern@));
        }
        r
    }

    /// The pattern's text, reconstructed from the tokens.
    pub fn to_text(&self) -> (r: Vec<u8>)
        requires
            self@.wf(),
        ensures
            r@ == self@.text(),
    {
        let mut out: Vec<u8> = Vec::new();
        let mut i: usize = 0;
        proof {
            if self.tokens.len() >= 1 {
                assert(self.tokens.deep_view().take(1) =~~= seq![self.tokens@[0]@]);
            }
        }
        while i < self.tokens.len()
            invariant
                self@.wf(),
                i <= self.tokens@.len(),
                i >= 1 ==> out@ == spec_join(self.tokens.deep_view().take(i as int), star()),
                i == 0 ==> out@.len() == 0,
            decreases self.tokens@.len() - i,
        {
            if i > 0 {
                out.push(0x2A);
            }
            let tok = &self.tokens[i];
            let ghost out0 = out@;
            let mut k: usize = 0;
            while k < tok.len()
                invariant
                    k <= tok@.len(),
                    out@ == out0 + tok@.subrange(0, k as int),
                decreases tok@.len() - k,
            {
                out.push(tok[k]);
                proof {
                    assert(out@ =~= out0 + tok@.subrange(0, k + 1));
                }
                k = k + 1;
            }
            proof {
                assert(tok@.subrange(0, tok@.len() as int) =~= tok@);
                assert(out@ == out0 + tok@);
            }
            proof {
                let ts = self.tokens.deep_view();
                assert(tok@ == ts[i as int]);
                if i == 0 {
                    assert(out@ =~= ts[0]);
                    assert(ts.take(1) =~= seq![ts[0]]);
                    assert(spec_join(ts.take(1), star()) == ts[0]);
                } else {
                    assert(ts.take(i + 1).drop_last() =~= ts.take(i as int));
                    assert(ts.take(i + 1).last() == ts[i as int]);
                    lemma_join_last(ts.take(i + 1), star());
                    let tsi = ts[i as int];
                    assert(out@ =~= spec_join(ts.take(i as int), star()) + seq![star()] + tsi);
                }
            }
            i = i + 1;
        }
        proof {
            assert(self.tokens.deep_view().take(self.tokens@.len() as int)
                =~= self.tokens.deep_view());
        }
        out
    }

    /// Whether the pattern matches a path.
    pub fn matches(&self, path: &[u8]) -> (r: bool)
        requires
            self@.wf(),
        ensures
            r == pattern_matches(self@, path@),
    {
        let ghost m = self@;
        let ghost s = path@;
        let n = self.tokens.len();
        let mut lo: usize = 0;
        let mut hi: usize = path.len();
        let mut first: usize = 0;
        if self.matches_bos {
            let t0 = &self.tokens[0];
            proof {
                assert(m.tokens[0] == t0@);
            }
            if t0.len() > path.len() {
                proof {
                    lemma_no_prefix_no_match(m, s);
                }
                return false;
            }
            if !eq_at(path, 0, t0.as_slice()) {
                proof {
                    assert(!is_prefix(m.tokens[0], s));
                    lemma_no_prefix_no_match(m, s);
                }
                return false;
            }
            proof {
                assert(is_prefix(m.tokens[0], s));
            }
            lo = t0.len();
            first = 1;
        }
        let mut tend: usize = n;
        if self.matches_eos {
            if first > n - 1 {
                // Both ends anchored with a single token: the whole path must
                // be exactly that token, and its prefix already matched.
                proof {
                    if lo == hi {
                        assert(s =~= m.tokens[0]);
                    } else {
                        assert(s.len() != m.tokens[0].len());
                    }
                }
                return lo == hi;
            }
            let tl = &self.tokens[n - 1];
            proof {
                assert(m.tokens[n - 1] == tl@);
            }
            if tl.len() > hi - lo {
                proof {
                    lemma_short_no_match(m, s, lo as int);
                }
                return false;
            }
            if !eq_at(path, hi - tl.len(), tl.as_slice()) {
                proof {
                    let tln = m.tokens[n - 1];
                    assert(s.subrange(s.len() - tln.len(), s.len() as int) != tln);
                    assert(!is_suffix(m.tokens[n - 1], s));
                }
                return false;
            }
            proof {
                assert(is_suffix(m.tokens[n - 1], s));
            }
            hi = hi - tl.len();
            tend = n - 1;
        }
        proof {
            lemma_case_shape(m, s, first as int, tend as int, lo as int, hi as int);
        }
        let mut i = first;
        while i < tend
            invariant
                first <= i <= tend <= self.tokens@.len(),
                lo <= hi <= path@.len(),
                self@ == m,
                path@ == s,
                m.tokens == self.tokens.deep_view(),
                pattern_matches(m, s) == match_mid(
                    m.tokens,
                    i as int,
                    tend as int,
                    s,
                    lo as int,
                    hi as int,
                ),
            decreases tend - i,
        {
            let t = &self.tokens[i];
            proof {
                assert(m.tokens[i as int] == t@);
            }
            match find_sub(path, lo, hi, t.as_slice()) {
                None => {
                    proof {
                        let tok = m.tokens[i as int];
                        if match_mid(m.tokens, i as int, tend as int, s, lo as int, hi as int) {
                            let j = choose|j: int|
                                lo <= j && j + tok.len() <= hi && occurs_at(s, tok, j) && match_mid(
                                    m.tokens,
                                    i + 1,
                                    tend as int,
                                    s,
                                    j + tok.len(),
                                    hi as int,
                                );
                            assert(false);
                        }
                    }
                    return false;
                },
                Some(j) => {
                    proof {
                        let tok = m.tokens[i as int];
                        assert forall|j2: int|
                            #![all_triggers]
                            lo <= j2 && j2 + tok.len() <= hi && occurs_at(s, tok, j2) && match_mid(
                                m.tokens,
                                i + 1,
                                tend as int,
                                s,
                                j2 + tok.len(),
                                hi as int,
                            ) implies match_mid(
                            m.tokens,
                            i + 1,
                            tend as int,
                            s,
                            j + tok.len(),
                            hi as int,
                        ) by {
                            lemma_match_mid_mono(
                                m.tokens,
                                i + 1,
                                tend as int,
                                s,
                                j + tok.len(),
                                j2 + tok.len(),
                                hi as int,
                            );
                        }
                        assert(match_mid(m.tokens, i as int, tend as int, s, lo as int, hi as int)
                            == match_mid(
                            m.tokens,
                            i + 1,
                            tend as int,
                            s,
                            j + tok.len(),
                            hi as int,
                        ));
                    }
                    lo = j + t.len();
                },
            }
            i = i + 1;
        }
        proof {
            assert(match_mid(m.tokens, tend as int, tend as int, s, lo as int, hi as int));
        }
        true
    }
}

/// When the pattern is anchored at the start and its first token is not a
/// prefix of the path, nothing matches.
proof fn lemma_no_prefix_no_match(m: GlobPatternModel, s: Seq<u8>)
    requires
        m.wf(),
        m.matches_bos,
        !is_prefix(m.tokens[0], s),
    ensures
        !pattern_matches(m, s),
{
    if m.tokens.len() == 1 && m.matches_eos {
        if s == m.tokens[0] {
            assert(s.subrange(0, m.tokens[0].len() as int) =~= m.tokens[0]);
        }
    }
}

/// When both ends are anchored and the first and last tokens overlap, nothing
/// matches.
proof fn lemma_short_no_match(m: GlobPatternModel, s: Seq<u8>, lo: int)
    requires
        m.wf(),
        m.matches_bos ==> is_prefix(m.tokens[0], s) && lo == m.tokens[0].len(),
        !m.matches_bos ==> lo == 0,
        m.matches_eos,
        m.tokens.len() >= 2 || !m.matches_bos,
        m.tokens.last().len() > s.len() - lo,
    ensures
        !pattern_matches(m, s),
{
}

/// After consuming the anchored prefix and suffix, the remaining question is
/// exactly the free placement of the middle tokens.
proof fn lemma_case_shape(m: GlobPatternModel, s: Seq<u8>, first: int, tend: int, lo: int, hi: int)
    requires
        m.wf(),
        m.matches_bos ==> first == 1 && is_prefix(m.tokens[0], s) && lo == m.tokens[0].len(),
        !m.matches_bos ==> first == 0 && lo == 0,
        m.matches_eos ==> tend == m.tokens.len() - 1 && is_suffix(m.tokens.last(), s) && hi
            == s.len() - m.tokens.last().len(),
        !m.matches_eos ==> tend == m.tokens.len() && hi == s.len(),
        lo <= hi,
        m.matches_bos && m.matches_eos ==> m.tokens.len() >= 2,
    ensures
        pattern_matches(m, s) == match_mid(m.tokens, first, tend, s, lo, hi),
{
}

impl Clone for GlobPathPattern {
    /// A copy with the same compiled content.
    fn clone(&self) -> (r: Self)
        ensures
            r@ == self@,
    {
        let mut tokens: Vec<Vec<u8>> = Vec::new();
        let mut i: usize = 0;
        while i < self.tokens.len()
            invariant
                i <= self.tokens@.len(),
                tokens@.len() == i,
                forall|k: int| 0 <= k < i ==> #[trigger] tokens@[k]@ == self.tokens@[k]@,
            decreases self.tokens@.len() - i,
        {
            tokens.push(crate::bytes::copy_bytes(&self.tokens[i]));
            i = i + 1;
        }
        let r = GlobPathPattern {
            tokens,
            matches_bos: self.matches_bos,
            matches_eos: self.matches_eos,
        };
        proof {
            assert(r@.tokens =~~= self@.tokens);
            assert(r@ =~~= self@);
        }
        r
    }
}

/// An owned copy of a pattern list, with the same compiled content.
pub fn clone_patterns(ps: &Vec<GlobPathPattern>) -> (r: Vec<GlobPathPattern>)
    ensures
        r@.map_values(|p: GlobPathPattern| p@) == ps@.map_values(|p: GlobPathPattern| p@),
{
    let mut r: Vec<GlobPathPattern> = Vec::new();
    let mut i: usize = 0;
    while i < ps.len()
        invariant
            i <= ps@.len(),
            r@.len() == i,
            forall|k: int| 0 <= k < i ==> #[trigger] r@[k]@ == ps@[k]@,
        decreases ps@.len() - i,
    {
        r.push(ps[i].clone());
        i = i + 1;
    }
    proof {
        assert(r@.map_values(|p: GlobPathPattern| p@) =~= ps@.map_values(
            |p: GlobPathPattern| p@,
        ));
    }
    r
}

// ---------------------------------------------------------------------------
// Filters
// ---------------------------------------------------------------------------

/// The mathematical content of a path filter.
pub ghost struct GlobFilterModel {
    pub included: Seq<GlobPatternModel>,
    pub excluded: Seq<GlobPatternModel>,
}

impl GlobFilterModel {
    pub open spec fn wf(self) -> bool {
        &&& forall|i: int| 0 <= i < self.included.len() ==> (#[trigger] self.included[i]).wf()
        &&& forall|i: int| 0 <= i < self.excluded.len() ==> (#[trigger] self.excluded[i]).wf()
    }
}

/// A path passes the filter when no exclude pattern matches it and, if any
/// include patterns are given, at least one of them matches it.
pub open spec fn spec_should_include(f: GlobFilterModel, path: Seq<u8>) -> bool {
    &&& forall|k: int| 0 <= k < f.excluded.len() ==> !pattern_matches(#[trigger] f.excluded[k], path)
    &&& (f.included.len() == 0 || exists|k: int|
        0 <= k < f.included.len() && pattern_matches(#[trigger] f.included[k], path))
}

/// Include and exclude pattern lists; exclusion takes precedence.
pub struct GlobPathFilter {
    pub include_files: Vec<GlobPathPattern>,
    pub exclude_files: Vec<GlobPathPattern>,
}

impl View for GlobPathFilter {
    type V = GlobFilterModel;

    open spec fn view(&self) -> GlobFilterModel {
        GlobFilterModel {
            included: self.include_files@.map_values(|p: GlobPathPattern| p@),
            excluded: self.exclude_files@.map_values(|p: GlobPathPattern| p@),
        }
    }
}

impl Default for GlobPathFilter {
    /// The empty filter, which includes every path.
    fn default() -> (r: Self)
        ensures
            r@.included.len() == 0,
            r@.excluded.len() == 0,
            r@.wf(),
    {
        GlobPathFilter { include_files: Vec::new(), exclude_files: Vec::new() }
    }
}

impl GlobPathFilter {
    /// Whether a path passes the filter: false when some exclude pattern
    /// matches; otherwise true when there are no include patterns, or when at
    /// least one include pattern matches.
    pub fn should_include(&self, path: &[u8]) -> (r: bool)
        requires
            self@.wf(),
        ensures
            r == spec_should_include(self@, path@),
    {
        let mut i: usize = 0;
        while i < self.exclude_files.len()
            invariant
                self@.wf(),
                i <= self.exclude_files@.len(),
                forall|k: int| 0 <= k < i ==> !pattern_matches(#[trigger] self@.excluded[k], path@),
            decreases self.exclude_files@.len() - i,
        {
            proof {
                assert(self@.excluded[i as int] == self.exclude_files@[i as int]@);
            }
            if self.exclude_files[i].matches(path) {
                return false;
            }
            i = i + 1;
        }
        if self.include_files.len() == 0 {
            return true;
        }
        let mut i: usize = 0;
        while i < self.include_files.len()
            invariant
                self@.wf(),
                i <= self.include_files@.len(),
                forall|k: int| 0 <= k < i ==> !pattern_matches(#[trigger] self@.included[k], path@),
                forall|k: int|
                    0 <= k < self@.excluded.len() ==> !pattern_matches(
                        #[trigger] self@.excluded[k],
                        path@,
                    ),
            decreases self.include_files@.len() - i,
        {
            proof {
                assert(self@.included[i as int] == self.include_files@[i as int]@);
            }
            if self.include_files[i].matches(path) {
                return true;
            }
            i = i + 1;
        }
        false
    }
}

// ---------------------------------------------------------------------------
// Laws of the wildcard language
// ---------------------------------------------------------------------------

/// The pattern `*` matches every path, including the empty one.
pub proof fn lemma_star_matches_all(s: Seq<u8>)
    ensures
        pattern_matches(spec_compile(seq![star()]), s),
{
    let p = seq![star()];
    lemma_compile_wf(p);
    let m = spec_compile(p);
    assert(sep_or_end(p, star(), 0) == 0);
    assert(sep_or_end(p, star(), 1) == 1);
    assert(split_from(p, star(), 1) =~= seq![p.subrange(1, 1)]);
    assert(m.tokens =~= seq![p.subrange(0, 0)] + seq![p.subrange(1, 1)]);
    assert(m.tokens[0].len() == 0 && m.tokens[1].len() == 0);
    assert(!m.matches_bos && !m.matches_eos);
    assert(occurs_at(s, m.tokens[1], 0)) by {
        assert(s.subrange(0, 0) =~= m.tokens[1]);
    }
    assert(match_mid(m.tokens, 2, 2, s, 0, s.len() as int));
    assert(match_mid(m.tokens, 1, 2, s, 0, s.len() as int)) by {
        assert(0 <= 0 && 0 + m.tokens[1].len() <= s.len() && occurs_at(s, m.tokens[1], 0)
            && match_mid(m.tokens, 2, 2, s, 0 + m.tokens[1].len() as int, s.len() as int));
    }
    assert(occurs_at(s, m.tokens[0], 0)) by {
        assert(s.subrange(0, 0) =~= m.tokens[0]);
    }
    assert(match_mid(m.tokens, 0, 2, s, 0, s.len() as int)) by {
        assert(0 <= 0 && 0 + m.tokens[0].len() <= s.len() && occurs_at(s, m.tokens[0], 0)
            && match_mid(m.tokens, 1, 2, s, 0 + m.tokens[0].len() as int, s.len() as int));
    }
}

/// A pattern without a wildcard matches exactly its own text.
pub proof fn lemma_literal_matches_exactly(p: Seq<u8>, s: Seq<u8>)
    requires
        !p.contains(star()),
    ensures
        pattern_matches(spec_compile(p), s) <==> s == p,
{
    lemma_compile_wf(p);
    let m = spec_compile(p);
    lemma_sep_or_end_exact(p, star(), 0, p.len() as int);
    assert(m.tokens =~= seq![p.subrange(0, p.len() as int)]);
    assert(m.tokens[0] =~= p);
    assert(m.matches_bos && m.matches_eos) by {
        if p.len() > 0 {
            assert(p[0] != star() && p[s_last(p)] != star());
        }
    }
    assert(pattern_matches(m, s) == (s == m.tokens[0]));
}

/// A pattern of the form `a*b`, with `a` and `b` wildcard-free, matches
/// exactly the paths that start with `a`, end with `b`, and are long enough
/// to hold both without overlap.
pub proof fn lemma_prefix_suffix_matches(a: Seq<u8>, b: Seq<u8>, s: Seq<u8>)
    requires
        !a.contains(star()),
        !b.contains(star()),
    ensures
        pattern_matches(spec_compile(a + seq![star()] + b), s) <==> (a.len() + b.len() <= s.len()
            && is_prefix(a, s) && is_suffix(b, s)),
{
    let p = a + seq![star()] + b;
    lemma_compile_wf(p);
    let m = spec_compile(p);
    let parts = seq![a, b];
    assert(spec_join(parts, star()) =~= p) by {
        assert(parts.skip(1) =~= seq![b]);
        assert(spec_join(seq![b], star()) == b);
        assert(spec_join(parts, star()) == a + seq![star()] + spec_join(seq![b], star()));
    }
    assert(p.subrange(0, p.len() as int) =~= p);
    lemma_split_join(p, star(), 0, parts);
    assert(m.tokens == parts);
    assert(m.tokens[0] == a && m.tokens[1] == b);
    assert(m.matches_bos == (a.len() > 0)) by {
        if a.len() > 0 {
            assert(p[0] == a[0]);
            assert(p[0] != star());
        } else {
            assert(p[0] == star());
        }
    }
    assert(m.matches_eos == (b.len() > 0)) by {
        if b.len() > 0 {
            assert(p[s_last(p)] == b[b.len() - 1]);
            assert(p[s_last(p)] != star());
        } else {
            assert(p[s_last(p)] == star());
        }
    }
    if a.len() > 0 && b.len() > 0 {
        assert(pattern_matches(m, s) == (is_prefix(a, s) && is_suffix(b, s) && a.len() + b.len()
            <= s.len() && match_mid(m.tokens, 1, 1, s, a.len() as int, s.len() - b.len())));
    } else if a.len() > 0 {
        // `b` is empty: it is a suffix of anything, and the middle token is
        // itself empty.
        assert(pattern_matches(m, s) == (is_prefix(a, s) && match_mid(
            m.tokens,
            1,
            2,
            s,
            a.len() as int,
            s.len() as int,
        )));
        assert(is_suffix(b, s)) by {
            assert(s.subrange(s.len() - 0, s.len() as int) =~= b);
        }
        if is_prefix(a, s) {
            assert(occurs_at(s, m.tokens[1], a.len() as int)) by {
                assert(s.subrange(a.len() as int, a.len() as int) =~= b);
            }
            assert(match_mid(m.tokens, 2, 2, s, a.len() as int, s.len() as int));
            assert(match_mid(m.tokens, 1, 2, s, a.len() as int, s.len() as int));
        }
    } else if b.len() > 0 {
        assert(pattern_matches(m, s) == (is_suffix(b, s) && match_mid(
            m.tokens,
            0,
            1,
            s,
            0,
            s.len() - b.len(),
        )));
        assert(is_prefix(a, s)) by {
            assert(s.subrange(0, 0) =~= a);
        }
        if is_suffix(b, s) {
            assert(occurs_at(s, m.tokens[0], 0)) by {
                assert(s.subrange(0, 0) =~= a);
            }
            assert(match_mid(m.tokens, 1, 1, s, 0, s.len() - b.len()));
            assert(match_mid(m.tokens, 0, 1, s, 0, s.len() - b.len()));
        }
    } else {
        assert(pattern_matches(m, s) == match_mid(m.tokens, 0, 2, s, 0, s.len() as int));
        assert(is_prefix(a, s)) by {
            assert(s.subrange(0, 0) =~= a);
        }
        assert(is_suffix(b, s)) by {
            assert(s.subrange(s.len() - 0, s.len() as int) =~= b);
        }
        assert(occurs_at(s, m.tokens[1], 0)) by {
            assert(s.subrange(0, 0) =~= b);
        }
        assert(match_mid(m.tokens, 2, 2, s, 0, s.len() as int));
        assert(match_mid(m.tokens, 1, 2, s, 0, s.len() as int)) by {
            assert(0 <= 0 && 0 + m.tokens[1].len() <= s.len() && occurs_at(s, m.tokens[1], 0)
                && match_mid(m.tokens, 2, 2, s, 0 + m.tokens[1].len() as int, s.len() as int));
        }
        assert(occurs_at(s, m.tokens[0], 0)) by {
            assert(s.subrange(0, 0) =~= a);
        }
        assert(match_mid(m.tokens, 0, 2, s, 0, s.len() as int)) by {
            assert(0 <= 0 && 0 + m.tokens[0].len() <= s.len() && occurs_at(s, m.tokens[0], 0)
                && match_mid(m.tokens, 1, 2, s, 0 + m.tokens[0].len() as int, s.len() as int));
        }
    }
}

} // verus!
