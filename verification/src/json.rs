//! Byte-level primitives of the log's JSON format: decimal integers, escaped
//! strings and number tokens, each with a serializer, a deterministic
//! positional scanner usable in specifications, and round-trip lemmas.

use vstd::prelude::*;

verus! {

// ---------------------------------------------------------------------------
// Byte classes
// ---------------------------------------------------------------------------

pub open spec fn is_digit(b: u8) -> bool {
    0x30 <= b && b <= 0x39
}

// ---------------------------------------------------------------------------
// Decimal integers
// ---------------------------------------------------------------------------

/// The canonical decimal notation of `n`, most significant digit first.
pub open spec fn spec_decimal(n: nat) -> Seq<u8>
    decreases n,
{
    if n < 10 {
        seq![(0x30 + n) as u8]
    } else {
        spec_decimal(n / 10).push((0x30 + n % 10) as u8)
    }
}

/// The numeric value of a digit sequence, read most significant digit first.
pub open spec fn dec_value(s: Seq<u8>) -> nat
    decreases s.len(),
{
    if s.len() == 0 {
        0
    } else {
        dec_value(s.drop_last()) * 10 + (s.last() - 0x30) as nat
    }
}

pub open spec fn all_digits(s: Seq<u8>) -> bool {
    forall|i: int| 0 <= i < s.len() ==> is_digit(#[trigger] s[i])
}

pub proof fn lemma_spec_decimal_chars(n: nat)
    ensures
        spec_decimal(n).len() >= 1,
        all_digits(spec_decimal(n)),
        spec_decimal(n)[0] == 0x30 <==> n == 0,
        dec_value(spec_decimal(n)) == n,
    decreases n,
{
    if n < 10 {
        let s = seq![(0x30 + n) as u8];
        assert(s.drop_last() =~= Seq::<u8>::empty());
        assert(dec_value(s) == dec_value(s.drop_last()) * 10 + (s.last() - 0x30) as nat);
    } else {
        lemma_spec_decimal_chars(n / 10);
        let pre = spec_decimal(n / 10);
        let d = (0x30 + n % 10) as u8;
        assert(pre.push(d).drop_last() =~= pre);
        assert(pre.push(d).last() == d);
        assert(forall|i: int| 0 <= i < pre.push(d).len() ==> is_digit(#[trigger] pre.push(d)[i]));
        vstd::arithmetic::div_mod::lemma_fundamental_div_mod(n as int, 10);
    }
}

/// Monotonicity of the running value of a digit scan: reading further digits
/// never decreases the value.
pub proof fn lemma_dec_value_monotone(s: Seq<u8>, p: int, a: int, b: int)
    requires
        0 <= p <= a <= b <= s.len(),
    ensures
        dec_value(s.subrange(p, a)) <= dec_value(s.subrange(p, b)),
    decreases b - a,
{
    if a < b {
        let t = s.subrange(p, b);
        assert(t.drop_last() =~= s.subrange(p, b - 1));
        lemma_dec_value_monotone(s, p, a, b - 1);
    }
}

// ---------------------------------------------------------------------------
// Escaped strings
// ---------------------------------------------------------------------------

pub open spec fn hex_digit(n: u8) -> u8 {
    if n < 10 {
        (0x30 + n) as u8
    } else {
        (0x61 + (n - 10)) as u8
    }
}

pub open spec fn is_hex_lower(b: u8) -> bool {
    is_digit(b) || (0x61 <= b && b <= 0x66)
}

pub open spec fn hex_val(b: u8) -> u8 {
    if is_digit(b) {
        (b - 0x30) as u8
    } else {
        (b - 0x61 + 10) as u8
    }
}

/// How one byte appears inside a JSON string: quotes, backslashes and control
/// bytes are escaped exactly the way the log format writes them.
pub open spec fn escape_byte(b: u8) -> Seq<u8> {
    if b == 0x22 {
        seq![0x5C, 0x22]
    } else if b == 0x5C {
        seq![0x5C, 0x5C]
    } else if b == 0x08 {
        seq![0x5C, 0x62]
    } else if b == 0x09 {
        seq![0x5C, 0x74]
    } else if b == 0x0A {
        seq![0x5C, 0x6E]
    } else if b == 0x0C {
        seq![0x5C, 0x66]
    } else if b == 0x0D {
        seq![0x5C, 0x72]
    } else if b < 0x20 {
        seq![0x5C, 0x75, 0x30, 0x30, hex_digit(b / 16), hex_digit(b % 16)]
    } else {
        seq![b]
    }
}

pub open spec fn spec_escape(s: Seq<u8>) -> Seq<u8>
    decreases s.len(),
{
    if s.len() == 0 {
        Seq::empty()
    } else {
        spec_escape(s.drop_last()) + escape_byte(s.last())
    }
}

/// A whole JSON string value: quote, escaped content, quote.
pub open spec fn spec_json_string(s: Seq<u8>) -> Seq<u8> {
    seq![0x22u8] + spec_escape(s) + seq![0x22u8]
}

pub proof fn lemma_spec_escape_first(x: Seq<u8>)
    requires
        x.len() > 0,
    ensures
        spec_escape(x) == escape_byte(x[0]) + spec_escape(x.skip(1)),
    decreases x.len(),
{
    if x.len() == 1 {
        assert(x.drop_last() =~= Seq::<u8>::empty());
        assert(x.skip(1) =~= Seq::<u8>::empty());
        assert(spec_escape(x) =~= escape_byte(x[0]) + spec_escape(x.skip(1)));
    } else {
        let y = x.drop_last();
        lemma_spec_escape_first(y);
        assert(x.skip(1).drop_last() =~= y.skip(1));
        assert(x.skip(1).last() == x.last());
        assert(y[0] == x[0]);
        assert(spec_escape(x.skip(1)) == spec_escape(y.skip(1)) + escape_byte(x.last()));
        assert(spec_escape(x) == escape_byte(x[0]) + spec_escape(y.skip(1)) + escape_byte(x.last()))
            by {
            assert(spec_escape(x) == spec_escape(y) + escape_byte(x.last()));
            assert(spec_escape(y) == escape_byte(x[0]) + spec_escape(y.skip(1)));
        }
        assert(escape_byte(x[0]) + spec_escape(y.skip(1)) + escape_byte(x.last()) =~= escape_byte(
            x[0],
        ) + (spec_escape(y.skip(1)) + escape_byte(x.last())));
    }
}

/// The deterministic scan of a JSON string's content, starting just after the
/// opening quote with the bytes decoded so far; yields the decoded content and
/// the position just past the closing quote. Only the canonical escapes that
/// `escape_byte` produces are accepted.
pub open spec fn str_scan(s: Seq<u8>, p: int, acc: Seq<u8>) -> Option<(Seq<u8>, int)>
    decreases s.len() - p,
{
    if p < 0 || p >= s.len() {
        None
    } else if s[p] == 0x22 {
        Some((acc, p + 1))
    } else if s[p] == 0x5C {
        if p + 1 < s.len() {
            let c = s[p + 1];
            if c == 0x22 {
                str_scan(s, p + 2, acc.push(0x22))
            } else if c == 0x5C {
                str_scan(s, p + 2, acc.push(0x5C))
            } else if c == 0x62 {
                str_scan(s, p + 2, acc.push(0x08))
            } else if c == 0x74 {
                str_scan(s, p + 2, acc.push(0x09))
            } else if c == 0x6E {
                str_scan(s, p + 2, acc.push(0x0A))
            } else if c == 0x66 {
                str_scan(s, p + 2, acc.push(0x0C))
            } else if c == 0x72 {
                str_scan(s, p + 2, acc.push(0x0D))
            } else if c == 0x75 {
                if p + 5 < s.len() && s[p + 2] == 0x30 && s[p + 3] == 0x30 && is_hex_lower(
                    s[p + 4],
                ) && is_hex_lower(s[p + 5]) {
                    let v = (hex_val(s[p + 4]) * 16 + hex_val(s[p + 5])) as u8;
                    if v < 0x20 && v != 0x08 && v != 0x09 && v != 0x0A && v != 0x0C && v != 0x0D {
                        str_scan(s, p + 6, acc.push(v))
                    } else {
                        None
                    }
                } else {
                    None
                }
            } else {
                None
            }
        } else {
            None
        }
    } else if s[p] < 0x20 {
        None
    } else {
        str_scan(s, p + 1, acc.push(s[p]))
    }
}

/// The scan of a whole JSON string value starting at `p`.
pub open spec fn string_scan(s: Seq<u8>, p: int) -> Option<(Seq<u8>, int)> {
    if 0 <= p < s.len() && s[p] == 0x22 {
        str_scan(s, p + 1, Seq::empty())
    } else {
        None
    }
}

/// Scanning a serialized string content recovers exactly the original bytes.
pub proof fn lemma_str_scan_roundtrip(s: Seq<u8>, p: int, x: Seq<u8>, acc: Seq<u8>)
    requires
        0 <= p,
        p + spec_escape(x).len() < s.len(),
        s.subrange(p, p + spec_escape(x).len()) == spec_escape(x),
        s[p + spec_escape(x).len()] == 0x22,
    ensures
        str_scan(s, p, acc) == Some((acc + x, p + spec_escape(x).len() + 1)),
    decreases x.len(),
{
    if x.len() == 0 {
        assert(spec_escape(x).len() == 0);
        assert(acc + x =~= acc);
    } else {
        lemma_spec_escape_first(x);
        let b = x[0];
        let e = escape_byte(b);
        let rest = spec_escape(x.skip(1));
        assert(spec_escape(x).len() == e.len() + rest.len());
        assert forall|k: int| 0 <= k < e.len() implies s[p + k] == e[k] by {
            assert(s.subrange(p, p + spec_escape(x).len())[k] == s[p + k]);
            assert(spec_escape(x)[k] == e[k]);
        }
        assert(s.subrange(p + e.len(), p + e.len() + rest.len()) =~= rest) by {
            assert forall|k: int| 0 <= k < rest.len() implies s[p + e.len() + k] == rest[k] by {
                assert(s.subrange(p, p + spec_escape(x).len())[e.len() + k] == s[p + e.len() + k]);
                assert(spec_escape(x)[e.len() + k] == rest[k]);
            }
        }
        if b == 0x22 || b == 0x5C || b == 0x08 || b == 0x09 || b == 0x0A || b == 0x0C || b
            == 0x0D {
            assert(e.len() == 2);
            assert(s[p] == 0x5C);
            lemma_str_scan_roundtrip(s, p + 2, x.skip(1), acc.push(b));
            assert(acc.push(b) + x.skip(1) =~= acc + x);
        } else if b < 0x20 {
            assert(e.len() == 6);
            assert(s[p] == 0x5C && s[p + 1] == 0x75);
            assert(s[p + 2] == 0x30 && s[p + 3] == 0x30);
            assert(s[p + 4] == hex_digit(b / 16) && s[p + 5] == hex_digit(b % 16));
            assert(b / 16 < 16 && b % 16 < 16) by {
                assert(b < 0x20);
            }
            assert(is_hex_lower(hex_digit(b / 16)) && hex_val(hex_digit(b / 16)) == b / 16);
            assert(is_hex_lower(hex_digit(b % 16)) && hex_val(hex_digit(b % 16)) == b % 16);
            assert((hex_val(s[p + 4]) * 16 + hex_val(s[p + 5])) as u8 == b) by {
                vstd::arithmetic::div_mod::lemma_fundamental_div_mod(b as int, 16);
            }
            lemma_str_scan_roundtrip(s, p + 6, x.skip(1), acc.push(b));
            assert(acc.push(b) + x.skip(1) =~= acc + x);
        } else {
            assert(e =~= seq![b]);
            assert(s[p + 0] == e[0]);
            assert(s[p] == b);
            assert(b != 0x22 && b != 0x5C && !(b < 0x20));
            lemma_str_scan_roundtrip(s, p + 1, x.skip(1), acc.push(b));
            assert(acc.push(b) + x.skip(1) =~= acc + x);
        }
    }
}

/// Scanning a whole serialized JSON string value recovers the original bytes.
pub proof fn lemma_string_scan_roundtrip(s: Seq<u8>, p: int, x: Seq<u8>)
    requires
        0 <= p,
        p + spec_json_string(x).len() <= s.len(),
        s.subrange(p, p + spec_json_string(x).len()) == spec_json_string(x),
    ensures
        string_scan(s, p) == Some((x, p + spec_json_string(x).len())),
{
    let n = spec_json_string(x).len();
    assert forall|k: int| 0 <= k < n implies s[p + k] == spec_json_string(x)[k] by {
        assert(s.subrange(p, p + n)[k] == s[p + k]);
    }
    assert(s[p + 0] == spec_json_string(x)[0]);
    assert(spec_json_string(x)[0] == 0x22);
    assert(s[p] == 0x22);
    assert(s[p + 1 + spec_escape(x).len() as int] == 0x22) by {
        assert(spec_json_string(x)[1 + spec_escape(x).len() as int] == 0x22);
    }
    assert(s.subrange(p + 1, p + 1 + spec_escape(x).len()) =~= spec_escape(x)) by {
        assert forall|k: int| 0 <= k < spec_escape(x).len() implies s[p + 1 + k] == spec_escape(
            x,
        )[k] by {
            assert(spec_json_string(x)[1 + k] == spec_escape(x)[k]);
        }
    }
    lemma_str_scan_roundtrip(s, p + 1, x, Seq::empty());
    assert(Seq::empty() + x =~= x);
}

// ---------------------------------------------------------------------------
// Number tokens
// ---------------------------------------------------------------------------

/// The end of the run of decimal digits starting at `p`.
pub open spec fn digits_end(s: Seq<u8>, p: int) -> int
    decreases s.len() - p,
{
    if 0 <= p < s.len() && is_digit(s[p]) {
        digits_end(s, p + 1)
    } else {
        p
    }
}

pub proof fn lemma_digits_end(s: Seq<u8>, p: int)
    requires
        0 <= p <= s.len(),
    ensures
        p <= digits_end(s, p) <= s.len(),
        forall|k: int| p <= k < digits_end(s, p) ==> is_digit(#[trigger] s[k]),
        digits_end(s, p) == s.len() || !is_digit(s[digits_end(s, p)]),
    decreases s.len() - p,
{
    if p < s.len() && is_digit(s[p]) {
        lemma_digits_end(s, p + 1);
    }
}

/// Scanning digits is insensitive to what lies beyond the first non-digit:
/// if `s` carries the all-digit run `t.subrange(k, t.len())` at `p + k` and the
/// byte after it is not a digit, both scans end together.
pub proof fn lemma_digits_end_embed(s: Seq<u8>, p: int, t: Seq<u8>, k: int)
    requires
        0 <= p,
        0 <= k <= t.len(),
        p + t.len() <= s.len(),
        s.subrange(p, p + t.len()) == t,
        p + t.len() == s.len() || !is_digit(s[p + t.len()]),
    ensures
        digits_end(s, p + k) == p + digits_end(t, k),
    decreases t.len() - k,
{
    if k < t.len() {
        assert(s[p + k] == t[k]) by {
            assert(s.subrange(p, p + t.len())[k] == s[p + k]);
        }
        if is_digit(t[k]) {
            lemma_digits_end_embed(s, p, t, k + 1);
        }
    }
}

/// The end of the JSON number token starting at `p`, or `-1` if no valid
/// number token starts there. The grammar is JSON's: an optional minus sign,
/// an integer part without redundant leading zeros, an optional fraction and
/// an optional exponent.
pub open spec fn number_end(s: Seq<u8>, p: int) -> int {
    let q = if 0 <= p < s.len() && s[p] == 0x2D {
        p + 1
    } else {
        p
    };
    if 0 <= q < s.len() && is_digit(s[q]) {
        let r1 = if s[q] == 0x30 {
            q + 1
        } else {
            digits_end(s, q)
        };
        let r2 = if r1 < s.len() && s[r1] == 0x2E {
            if r1 + 1 < s.len() && is_digit(s[r1 + 1]) {
                digits_end(s, r1 + 1)
            } else {
                -1
            }
        } else {
            r1
        };
        if r2 < 0 {
            -1
        } else {
            if r2 < s.len() && (s[r2] == 0x65 || s[r2] == 0x45) {
                let r3 = if r2 + 1 < s.len() && (s[r2 + 1] == 0x2B || s[r2 + 1] == 0x2D) {
                    r2 + 2
                } else {
                    r2 + 1
                };
                if r3 < s.len() && is_digit(s[r3]) {
                    digits_end(s, r3)
                } else {
                    -1
                }
            } else {
                r2
            }
        }
    } else {
        -1
    }
}

/// A standalone, complete JSON number token.
pub open spec fn is_number_token(t: Seq<u8>) -> bool {
    t.len() > 0 && number_end(t, 0) == t.len()
}

/// A byte that could extend a preceding number token.
pub open spec fn continues_number(b: u8) -> bool {
    is_digit(b) || b == 0x2E || b == 0x65 || b == 0x45
}

pub proof fn lemma_number_end_bounds(s: Seq<u8>, p: int)
    requires
        0 <= p <= s.len(),
    ensures
        number_end(s, p) == -1 || p < number_end(s, p) <= s.len(),
{
    lemma_digits_end(s, p);
    if p < s.len() {
        lemma_digits_end(s, p + 1);
        let q = if s[p] == 0x2D {
            p + 1
        } else {
            p
        };
        if q < s.len() && is_digit(s[q]) {
            lemma_digits_end(s, q);
            let r1 = if s[q] == 0x30 {
                q + 1
            } else {
                digits_end(s, q)
            };
            assert(q < r1 <= s.len());
            if r1 < s.len() && s[r1] == 0x2E && r1 + 1 < s.len() && is_digit(s[r1 + 1]) {
                lemma_digits_end(s, r1 + 1);
            }
            let r2 = if r1 < s.len() && s[r1] == 0x2E {
                if r1 + 1 < s.len() && is_digit(s[r1 + 1]) {
                    digits_end(s, r1 + 1)
                } else {
                    -1int
                }
            } else {
                r1
            };
            if r2 >= 0 {
                assert(r1 <= r2 <= s.len());
                if r2 < s.len() && (s[r2] == 0x65 || s[r2] == 0x45) {
                    let r3 = if r2 + 1 < s.len() && (s[r2 + 1] == 0x2B || s[r2 + 1] == 0x2D) {
                        r2 + 2
                    } else {
                        r2 + 1
                    };
                    if r3 < s.len() && is_digit(s[r3]) {
                        lemma_digits_end(s, r3);
                    }
                }
            }
        }
    }
}

/// A complete number token embedded in a larger text, followed by a byte that
/// cannot extend it, scans to exactly its own end.
pub proof fn lemma_number_end_embed(s: Seq<u8>, p: int, t: Seq<u8>)
    requires
        0 <= p,
        is_number_token(t),
        p + t.len() <= s.len(),
        s.subrange(p, p + t.len()) == t,
        p + t.len() == s.len() || !continues_number(s[p + t.len()]),
        p + t.len() == s.len() || !(s[p + t.len()] == 0x2B || s[p + t.len()] == 0x2D),
    ensures
        number_end(s, p) == p + t.len(),
{
    let n = t.len() as int;
    assert forall|k: int| 0 <= k < n implies s[p + k] == t[k] by {
        assert(s.subrange(p, p + n)[k] == s[p + k]);
    }
    assert(t.subrange(0, n) =~= t);
    // Mirror the scan of `t` step by step inside `s`.
    let tq = if t[0] == 0x2D {
        1int
    } else {
        0int
    };
    let q = p + tq;
    assert(0 <= tq < n && is_digit(t[tq])) by {
        if tq >= n || !is_digit(t[tq]) {
            assert(number_end(t, 0) == -1);
        }
    }
    assert(s[q] == t[tq]);
    let tr1 = if t[tq] == 0x30 {
        tq + 1
    } else {
        digits_end(t, tq)
    };
    lemma_digits_end(t, tq);
    lemma_digits_end_embed(s, p, t, tq);
    assert(digits_end(s, q) == p + digits_end(t, tq));
    let r1 = if t[tq] == 0x30 {
        q + 1
    } else {
        digits_end(s, q)
    };
    assert(r1 == p + tr1);
    assert(tr1 <= n) by {
        if tr1 > n {
            assert(number_end(t, 0) == -1);
        }
    }
    // Whether a fraction part follows is decided by the same byte in both.
    assert(tr1 == n || s[r1] == t[tr1]);
    if tr1 < n && t[tr1] == 0x2E {
        assert(tr1 + 1 < n && is_digit(t[tr1 + 1])) by {
            if !(tr1 + 1 < n && is_digit(t[tr1 + 1])) {
                assert(number_end(t, 0) == -1);
            }
        }
        assert(s[r1 + 1] == t[tr1 + 1]);
        lemma_digits_end(t, tr1 + 1);
        lemma_digits_end_embed(s, p, t, tr1 + 1);
    }
    let tr2 = if tr1 < n && t[tr1] == 0x2E {
        digits_end(t, tr1 + 1)
    } else {
        tr1
    };
    let r2 = p + tr2;
    assert(tr2 <= n) by {
        if tr1 < n && t[tr1] == 0x2E {
            lemma_digits_end(t, tr1 + 1);
            if tr2 > n {
                assert(number_end(t, 0) == -1);
            }
        }
    }
    assert(tr2 == n || s[r2] == t[tr2]);
    if tr2 < n && (t[tr2] == 0x65 || t[tr2] == 0x45) {
        let tr3 = if tr2 + 1 < n && (t[tr2 + 1] == 0x2B || t[tr2 + 1] == 0x2D) {
            tr2 + 2
        } else {
            tr2 + 1
        };
        assert(tr3 < n && is_digit(t[tr3])) by {
            if !(tr3 < n && is_digit(t[tr3])) {
                assert(number_end(t, 0) == -1);
            }
        }
        assert(tr2 + 1 < n ==> s[r2 + 1] == t[tr2 + 1]);
        assert(s[p + tr3] == t[tr3]);
        lemma_digits_end(t, tr3);
        lemma_digits_end_embed(s, p, t, tr3);
        assert(digits_end(t, tr3) == n) by {
            if digits_end(t, tr3) != n {
                assert(number_end(t, 0) == -1);
            }
        }
    } else {
        assert(tr2 == n) by {
            if tr2 < n {
                assert(number_end(t, 0) == n);
                assert(false);
            }
        }
    }
}

// ---------------------------------------------------------------------------
// Unsigned decimal scan
// ---------------------------------------------------------------------------

/// The end of the canonical unsigned decimal starting at `p`: one `0`, or a
/// maximal digit run not starting with `0`; `-1` if no digit starts there.
pub open spec fn usize_end(s: Seq<u8>, p: int) -> int {
    if 0 <= p < s.len() && is_digit(s[p]) {
        if s[p] == 0x30 {
            p + 1
        } else {
            digits_end(s, p)
        }
    } else {
        -1
    }
}

/// A serialized decimal, followed by a byte that is not a digit, scans to
/// exactly its own end and back to its own value.
pub proof fn lemma_usize_end_embed(s: Seq<u8>, p: int, n: nat)
    requires
        0 <= p,
        p + spec_decimal(n).len() <= s.len(),
        s.subrange(p, p + spec_decimal(n).len()) == spec_decimal(n),
        p + spec_decimal(n).len() == s.len() || !is_digit(s[p + spec_decimal(n).len()]),
    ensures
        usize_end(s, p) == p + spec_decimal(n).len(),
        dec_value(s.subrange(p, p + spec_decimal(n).len())) == n,
{
    let t = spec_decimal(n);
    lemma_spec_decimal_chars(n);
    assert forall|k: int| 0 <= k < t.len() implies s[p + k] == t[k] by {
        assert(s.subrange(p, p + t.len())[k] == s[p + k]);
    }
    assert(s[p + 0] == t[0]);
    if n == 0 {
        assert(t.len() == 1);
        assert(s[p] == 0x30);
    } else {
        assert(s[p] != 0x30);
        lemma_digits_end_embed(s, p, t, 0);
        assert(digits_end(t, 0) == t.len()) by {
            lemma_digits_end(t, 0);
            if digits_end(t, 0) < t.len() {
                assert(is_digit(t[digits_end(t, 0)]));
            }
        }
    }
}

// ---------------------------------------------------------------------------
// Literals
// ---------------------------------------------------------------------------

/// `lit` occurs in `s` exactly at position `p`.
pub open spec fn lit_at(s: Seq<u8>, p: int, lit: Seq<u8>) -> bool {
    0 <= p && p + lit.len() <= s.len() && s.subrange(p, p + lit.len()) == lit
}

// ---------------------------------------------------------------------------
// Executable serializers
// ---------------------------------------------------------------------------

fn hex_digit_exec(n: u8) -> (r: u8)
    requires
        n < 16,
    ensures
        r == hex_digit(n),
{
    if n < 10 {
        0x30 + n
    } else {
        0x61 + (n - 10)
    }
}

/// Appends the escaped form of `s` to `out`.
pub fn push_escaped(out: &mut Vec<u8>, s: &[u8])
    ensures
        final(out)@ == old(out)@ + spec_escape(s@),
{
    let mut i: usize = 0;
    while i < s.len()
        invariant
            i <= s@.len(),
            out@ == old(out)@ + spec_escape(s@.take(i as int)),
        decreases s@.len() - i,
    {
        let b = s[i];
        proof {
            assert(s@.take(i + 1).drop_last() =~= s@.take(i as int));
            assert(s@.take(i + 1).last() == s@[i as int]);
        }
        if b == 0x22 {
            out.push(0x5C);
            out.push(0x22);
        } else if b == 0x5C {
            out.push(0x5C);
            out.push(0x5C);
        } else if b == 0x08 {
            out.push(0x5C);
            out.push(0x62);
        } else if b == 0x09 {
            out.push(0x5C);
            out.push(0x74);
        } else if b == 0x0A {
            out.push(0x5C);
            out.push(0x6E);
        } else if b == 0x0C {
            out.push(0x5C);
            out.push(0x66);
        } else if b == 0x0D {
            out.push(0x5C);
            out.push(0x72);
        } else if b < 0x20 {
            out.push(0x5C);
            out.push(0x75);
            out.push(0x30);
            out.push(0x30);
            out.push(hex_digit_exec(b / 16));
            out.push(hex_digit_exec(b % 16));
        } else {
            out.push(b);
        }
        proof {
            assert(out@ =~= old(out)@ + spec_escape(s@.take(i + 1)));
        }
        i = i + 1;
    }
    proof {
        assert(s@.take(s@.len() as int) =~= s@);
    }
}

/// Appends a JSON string value (quotes and escaping included) to `out`.
pub fn push_json_string(out: &mut Vec<u8>, s: &[u8])
    ensures
        final(out)@ == old(out)@ + spec_json_string(s@),
{
    out.push(0x22);
    push_escaped(out, s);
    out.push(0x22);
    proof {
        assert(out@ =~= old(out)@ + spec_json_string(s@));
    }
}

/// Appends the canonical decimal notation of `n` to `out`.
pub fn push_decimal(out: &mut Vec<u8>, n: usize)
    ensures
        final(out)@ == old(out)@ + spec_decimal(n as nat),
    decreases n,
{
    if n < 10 {
        out.push(0x30 + n as u8);
        proof {
            assert(out@ =~= old(out)@ + spec_decimal(n as nat));
        }
    } else {
        push_decimal(out, n / 10);
        out.push(0x30 + (n % 10) as u8);
        proof {
            assert(out@ =~= old(out)@ + spec_decimal(n as nat));
        }
    }
}

// ---------------------------------------------------------------------------
// Executable parsers
// ---------------------------------------------------------------------------

fn is_digit_exec(b: u8) -> (r: bool)
    ensures
        r == is_digit(b),
{
    0x30 <= b && b <= 0x39
}

/// Scans past the digits starting at `from`.
pub fn scan_digits(s: &[u8], from: usize) -> (r: usize)
    requires
        from <= s@.len(),
    ensures
        r == digits_end(s@, from as int),
        from <= r <= s@.len(),
{
    let mut pos = from;
    while pos < s.len() && is_digit_exec(s[pos])
        invariant
            from <= pos <= s@.len(),
            digits_end(s@, from as int) == digits_end(s@, pos as int),
        decreases s@.len() - pos,
    {
        pos = pos + 1;
    }
    pos
}

/// Parses the JSON string value starting at `from`, returning the decoded
/// bytes and the position just past the closing quote.
pub fn parse_string(s: &[u8], from: usize) -> (r: Option<(Vec<u8>, usize)>)
    requires
        from <= s@.len(),
    ensures
        match r {
            Some((v, j)) => string_scan(s@, from as int) == Some((v@, j as int)) && from < j
                <= s@.len(),
            None => string_scan(s@, from as int) is None,
        },
{
    if from >= s.len() || s[from] != 0x22 {
        return None;
    }
    let mut pos = from + 1;
    let mut v: Vec<u8> = Vec::new();
    loop
        invariant
            from + 1 <= pos <= s@.len(),
            from < s@.len(),
            s@[from as int] == 0x22,
            str_scan(s@, from as int + 1, Seq::empty()) == str_scan(s@, pos as int, v@),
        decreases s@.len() - pos,
    {
        if pos >= s.len() {
            return None;
        }
        let c = s[pos];
        if c == 0x22 {
            proof {
                assert(str_scan(s@, pos as int, v@) == Some((v@, pos as int + 1)));
                assert(string_scan(s@, from as int) == str_scan(
                    s@,
                    from as int + 1,
                    Seq::<u8>::empty(),
                ));
                assert(string_scan(s@, from as int) == Some((v@, pos as int + 1)));
            }
            return Some((v, pos + 1));
        } else if c == 0x5C {
            if pos + 1 >= s.len() {
                return None;
            }
            let e = s[pos + 1];
            if e == 0x22 {
                v.push(0x22);
                pos = pos + 2;
            } else if e == 0x5C {
                v.push(0x5C);
                pos = pos + 2;
            } else if e == 0x62 {
                v.push(0x08);
                pos = pos + 2;
            } else if e == 0x74 {
                v.push(0x09);
                pos = pos + 2;
            } else if e == 0x6E {
                v.push(0x0A);
                pos = pos + 2;
            } else if e == 0x66 {
                v.push(0x0C);
                pos = pos + 2;
            } else if e == 0x72 {
                v.push(0x0D);
                pos = pos + 2;
            } else if e == 0x75 {
                if s.len() - pos > 5 && s[pos + 2] == 0x30 && s[pos + 3] == 0x30 && is_hex_lower_exec(
                    s[pos + 4],
                ) && is_hex_lower_exec(s[pos + 5]) {
                    let val = hex_val_exec(s[pos + 4]) * 16 + hex_val_exec(s[pos + 5]);
                    if val < 0x20 && val != 0x08 && val != 0x09 && val != 0x0A && val != 0x0C && val
                        != 0x0D {
                        v.push(val);
                        pos = pos + 6;
                    } else {
                        return None;
                    }
                } else {
                    return None;
                }
            } else {
                return None;
            }
        } else if c < 0x20 {
            return None;
        } else {
            v.push(c);
            pos = pos + 1;
        }
    }
}

fn is_hex_lower_exec(b: u8) -> (r: bool)
    ensures
        r == is_hex_lower(b),
{
    (0x30 <= b && b <= 0x39) || (0x61 <= b && b <= 0x66)
}

fn hex_val_exec(b: u8) -> (r: u8)
    requires
        is_hex_lower(b),
    ensures
        r == hex_val(b),
        r < 16,
{
    if b <= 0x39 {
        b - 0x30
    } else {
        b - 0x61 + 10
    }
}

/// Parses the JSON number token starting at `from`, returning its bytes and
/// the position just past it.
pub fn parse_number(s: &[u8], from: usize) -> (r: Option<(Vec<u8>, usize)>)
    requires
        from <= s@.len(),
    ensures
        match r {
            Some((v, j)) => {
                &&& number_end(s@, from as int) == j as int
                &&& v@ == s@.subrange(from as int, j as int)
                &&& from < j <= s@.len()
                &&& is_number_token(v@) == (number_end(v@, 0) == v@.len())
            },
            None => number_end(s@, from as int) == -1,
        },
{
    proof {
        lemma_number_end_bounds(s@, from as int);
    }
    let q = if from < s.len() && s[from] == 0x2D {
        from + 1
    } else {
        from
    };
    if !(q < s.len() && is_digit_exec(s[q])) {
        return None;
    }
    let r1 = if s[q] == 0x30 {
        q + 1
    } else {
        scan_digits(s, q)
    };
    let r2 = if r1 < s.len() && s[r1] == 0x2E {
        if r1 + 1 < s.len() && is_digit_exec(s[r1 + 1]) {
            scan_digits(s, r1 + 1)
        } else {
            return None;
        }
    } else {
        r1
    };
    let r3 = if r2 < s.len() && (s[r2] == 0x65 || s[r2] == 0x45) {
        let e0 = if r2 + 1 < s.len() && (s[r2 + 1] == 0x2B || s[r2 + 1] == 0x2D) {
            r2 + 2
        } else {
            r2 + 1
        };
        if e0 < s.len() && is_digit_exec(s[e0]) {
            scan_digits(s, e0)
        } else {
            return None;
        }
    } else {
        r2
    };
    let mut v: Vec<u8> = Vec::new();
    let mut k = from;
    while k < r3
        invariant
            from <= k <= r3 <= s@.len(),
            v@ == s@.subrange(from as int, k as int),
        decreases r3 - k,
    {
        v.push(s[k]);
        proof {
            assert(v@ =~= s@.subrange(from as int, k + 1));
        }
        k = k + 1;
    }
    Some((v, r3))
}

/// Parses the canonical unsigned decimal starting at `from`. Fails when no
/// digit starts there or the value does not fit in `usize`.
pub fn parse_usize(s: &[u8], from: usize) -> (r: Option<(usize, usize)>)
    requires
        from <= s@.len(),
    ensures
        match r {
            Some((n, j)) => {
                &&& usize_end(s@, from as int) == j as int
                &&& dec_value(s@.subrange(from as int, j as int)) == n as nat
                &&& from < j <= s@.len()
            },
            None => usize_end(s@, from as int) == -1 || dec_value(
                s@.subrange(from as int, usize_end(s@, from as int)),
            ) > usize::MAX,
        },
{
    if !(from < s.len() && is_digit_exec(s[from])) {
        return None;
    }
    let end = if s[from] == 0x30 {
        from + 1
    } else {
        scan_digits(s, from)
    };
    proof {
        lemma_digits_end(s@, from as int);
    }
    let mut n: usize = 0;
    let mut k = from;
    while k < end
        invariant
            from <= k <= end <= s@.len(),
            end == usize_end(s@, from as int),
            all_digits(s@.subrange(from as int, end as int)),
            n as nat == dec_value(s@.subrange(from as int, k as int)),
        decreases end - k,
    {
        proof {
            assert(is_digit(s@[k as int])) by {
                assert(s@.subrange(from as int, end as int)[k - from] == s@[k as int]);
            }
            assert(s@.subrange(from as int, k + 1).drop_last() =~= s@.subrange(
                from as int,
                k as int,
            ));
            assert(s@.subrange(from as int, k + 1).last() == s@[k as int]);
        }
        let d = s[k] - 0x30;
        if n > (usize::MAX - d as usize) / 10 {
            proof {
                lemma_dec_value_monotone(s@, from as int, k + 1, end as int);
                assert(dec_value(s@.subrange(from as int, k + 1)) == n * 10 + d);
                vstd::arithmetic::div_mod::lemma_fundamental_div_mod(
                    (usize::MAX - d) as int,
                    10,
                );
                assert(n * 10 + d > usize::MAX) by {
                    assert(n >= (usize::MAX - d as usize) / 10 + 1);
                    assert(n * 10 >= ((usize::MAX - d as usize) / 10 + 1) * 10) by (nonlinear_arith)
                        requires
                            n >= (usize::MAX - d as usize) / 10 + 1,
                    ;
                }
            }
            return None;
        }
        proof {
            vstd::arithmetic::div_mod::lemma_fundamental_div_mod((usize::MAX - d) as int, 10);
            assert(n * 10 <= ((usize::MAX - d as usize) / 10) * 10) by (nonlinear_arith)
                requires
                    n <= (usize::MAX - d as usize) / 10,
            ;
        }
        n = n * 10 + d as usize;
        k = k + 1;
    }
    Some((n, end))
}

/// Checks that `lit` occurs in `s` exactly at `from`; on success returns the
/// position just past it.
pub fn expect_lit(s: &[u8], from: usize, lit: &[u8]) -> (r: Option<usize>)
    requires
        from <= s@.len(),
    ensures
        match r {
            Some(j) => lit_at(s@, from as int, lit@) && j == from + lit@.len(),
            None => !lit_at(s@, from as int, lit@),
        },
{
    let n = s.len();
    if n - from < lit.len() {
        return None;
    }
    let mut k: usize = 0;
    while k < lit.len()
        invariant
            0 <= k <= lit@.len(),
            n == s@.len(),
            from + lit@.len() <= n,
            forall|i: int| 0 <= i < k ==> s@[from + i] == lit@[i],
        decreases lit@.len() - k,
    {
        if s[from + k] != lit[k] {
            proof {
                assert(s@.subrange(from as int, from + lit@.len())[k as int] != lit@[k as int]);
            }
            return None;
        }
        k = k + 1;
    }
    proof {
        assert(s@.subrange(from as int, from + lit@.len()) =~= lit@);
    }
    Some(from + lit.len())
}

} // verus!
