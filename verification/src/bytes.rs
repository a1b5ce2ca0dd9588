//! Small executable helpers over byte slices: equality, region comparison and
//! leftmost substring search.

use vstd::prelude::*;

verus! {

pub open spec fn is_prefix(t: Seq<u8>, s: Seq<u8>) -> bool {
    t.len() <= s.len() && s.subrange(0, t.len() as int) == t
}

pub open spec fn is_suffix(t: Seq<u8>, s: Seq<u8>) -> bool {
    t.len() <= s.len() && s.subrange(s.len() - t.len(), s.len() as int) == t
}

/// Whether `t` occurs in `s` starting exactly at `j`.
pub open spec fn occurs_at(s: Seq<u8>, t: Seq<u8>, j: int) -> bool {
    0 <= j && j + t.len() <= s.len() && s.subrange(j, j + t.len()) == t
}

/// For byte vectors the deep view is the view itself.
pub broadcast proof fn lemma_vec_u8_deep_view(v: Vec<u8>)
    ensures
        #[trigger] v.deep_view() == v@,
{
    assert(v.deep_view() =~= v@);
}

/// An owned copy of a byte vector.
pub fn copy_bytes(v: &Vec<u8>) -> (r: Vec<u8>)
    ensures
        r@ == v@,
{
    let mut r: Vec<u8> = Vec::new();
    let mut i: usize = 0;
    while i < v.len()
        invariant
            i <= v@.len(),
            r@ == v@.subrange(0, i as int),
        decreases v@.len() - i,
    {
        r.push(v[i]);
        proof {
            assert(r@ =~= v@.subrange(0, i + 1));
        }
        i = i + 1;
    }
    proof {
        assert(v@.subrange(0, v@.len() as int) =~= v@);
    }
    r
}

/// Byte-for-byte equality of two slices.
pub fn bytes_eq(a: &[u8], b: &[u8]) -> (r: bool)
    ensures
        r == (a@ == b@),
{
    if a.len() != b.len() {
        proof {
            assert(a@ != b@);
        }
        return false;
    }
    let mut i: usize = 0;
    while i < a.len()
        invariant
            i <= a@.len(),
            a@.len() == b@.len(),
            forall|k: int| 0 <= k < i ==> a@[k] == b@[k],
        decreases a@.len() - i,
    {
        if a[i] != b[i] {
            return false;
        }
        i = i + 1;
    }
    proof {
        assert(a@ =~= b@);
    }
    true
}

/// Whether `t` occurs in `s` at position `at`.
pub fn eq_at(s: &[u8], at: usize, t: &[u8]) -> (r: bool)
    requires
        at + t@.len() <= s@.len(),
    ensures
        r == occurs_at(s@, t@, at as int),
{
    let n = s.len();
    let m = t.len();
    let mut k: usize = 0;
    while k < m
        invariant
            k <= m,
            m == t@.len(),
            n == s@.len(),
            at + m <= n,
            forall|i: int| 0 <= i < k ==> s@[at + i] == t@[i],
        decreases m - k,
    {
        if s[at + k] != t[k] {
            proof {
                assert(s@.subrange(at as int, at + t@.len())[k as int] == s@[at + k]);
            }
            return false;
        }
        k = k + 1;
    }
    proof {
        assert(s@.subrange(at as int, at + t@.len()) =~= t@);
    }
    true
}

/// The leftmost occurrence of `t` within `s[lo..hi]`, if any.
pub fn find_sub(s: &[u8], lo: usize, hi: usize, t: &[u8]) -> (r: Option<usize>)
    requires
        lo <= hi <= s@.len(),
    ensures
        match r {
            Some(j) => {
                &&& lo <= j && j + t@.len() <= hi
                &&& occurs_at(s@, t@, j as int)
                &&& forall|j2: int|
                    lo <= j2 < j ==> !(j2 + t@.len() <= hi && occurs_at(s@, t@, j2))
            },
            None => forall|j2: int| lo <= j2 ==> !(j2 + t@.len() <= hi && occurs_at(s@, t@, j2)),
        },
{
    if hi - lo < t.len() {
        return None;
    }
    let n = s.len();
    let last = hi - t.len();
    let mut j = lo;
    loop
        invariant
            lo <= j <= last,
            n == s@.len(),
            last + t@.len() == hi <= n,
            forall|j2: int| lo <= j2 < j ==> !(j2 + t@.len() <= hi && occurs_at(s@, t@, j2)),
        decreases last - j,
    {
        if eq_at(s, j, t) {
            return Some(j);
        }
        if j == last {
            return None;
        }
        j = j + 1;
    }
}

} // verus!
