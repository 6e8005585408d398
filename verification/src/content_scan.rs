//! Quote- and nesting-aware scanning of STTP object text: top-level pair
//! splitting, top-level `:` search and balanced-brace extraction.
use vstd::prelude::*;
use crate::text::{lead_ws, trail_ws, trim, trim_bounds, lemma_lead_ws, lemma_trail_ws};

verus! {

/// Lexical state after reading a prefix: inside a quoted string, right after
/// a backslash inside one, brace depth and bracket depth.
pub struct ScanState {
    pub in_quotes: bool,
    pub escape: bool,
    pub braces: nat,
    pub brackets: nat,
}

pub open spec fn sat_dec(n: nat) -> nat {
    if n == 0 {
        0
    } else {
        (n - 1) as nat
    }
}

/// The state after reading `c` in state `st`.  Inside quotes a backslash
/// escapes the next character and `"` closes the string; outside, `"`
/// opens a string and braces and brackets move their depth, never below 0.
pub open spec fn step(st: ScanState, c: char) -> ScanState {
    if st.in_quotes {
        if st.escape {
            ScanState { escape: false, ..st }
        } else if c == '\\' {
            ScanState { escape: true, ..st }
        } else if c == '"' {
            ScanState { in_quotes: false, ..st }
        } else {
            st
        }
    } else if c == '"' {
        ScanState { in_quotes: true, ..st }
    } else if c == '{' {
        ScanState { braces: st.braces + 1, ..st }
    } else if c == '}' {
        ScanState { braces: sat_dec(st.braces), ..st }
    } else if c == '[' {
        ScanState { brackets: st.brackets + 1, ..st }
    } else if c == ']' {
        ScanState { brackets: sat_dec(st.brackets), ..st }
    } else {
        st
    }
}

/// The lexical state after reading `t`.
pub open spec fn scan(t: Seq<char>) -> ScanState
    decreases t.len(),
{
    if t.len() == 0 {
        ScanState { in_quotes: false, escape: false, braces: 0, brackets: 0 }
    } else {
        step(scan(t.drop_last()), t.last())
    }
}

/// Position `p` of `t` lies outside quotes and outside any brace or bracket.
pub open spec fn top_level(t: Seq<char>, p: int) -> bool {
    let st = scan(t.take(p));
    !st.in_quotes && st.braces == 0 && st.brackets == 0
}

/// Position `p` of `t` holds a top-level comma.
pub open spec fn is_sep(t: Seq<char>, p: int) -> bool {
    0 <= p < t.len() && t[p] == ',' && top_level(t, p)
}

/// Start of the segment that ends at position `p`: just after the last
/// top-level comma before `p`, or 0.
pub open spec fn seg_start(t: Seq<char>, p: int) -> int
    decreases p,
{
    if p <= 0 {
        0
    } else if is_sep(t, p - 1) {
        p
    } else {
        seg_start(t, p - 1)
    }
}

/// The trimmed bounds of segment `t[a..b]`, if it is not blank.
pub open spec fn seg_pair(t: Seq<char>, a: int, b: int) -> Seq<(int, int)> {
    let s = t.subrange(a, b);
    if trim(s).len() == 0 {
        Seq::empty()
    } else {
        seq![(a + lead_ws(s), b - trail_ws(s))]
    }
}

/// Pairs of the segments closed by the top-level commas before position `p`.
pub open spec fn pairs_upto(t: Seq<char>, p: int) -> Seq<(int, int)>
    decreases p,
{
    if p <= 0 {
        Seq::empty()
    } else {
        pairs_upto(t, p - 1) + if is_sep(t, p - 1) {
            seg_pair(t, seg_start(t, p - 1), p - 1)
        } else {
            Seq::empty()
        }
    }
}

/// The top-level pairs of `t`: `t` split at its top-level commas, each part
/// trimmed of whitespace, blank parts dropped.  Each pair is given by its
/// character bounds in `t`.
pub open spec fn pairs_of(t: Seq<char>) -> Seq<(int, int)> {
    pairs_upto(t, t.len() as int) + seg_pair(t, seg_start(t, t.len() as int), t.len() as int)
}

/// Index of the first top-level `:` of `t` at or after `p`.
pub open spec fn colon_from(t: Seq<char>, p: int) -> Option<int>
    decreases t.len() - p,
{
    if p < 0 || p >= t.len() {
        None
    } else if t[p] == ':' && top_level(t, p) {
        Some(p)
    } else {
        colon_from(t, p + 1)
    }
}

/// Index of the first top-level `:` of `t`.
pub open spec fn top_colon(t: Seq<char>) -> Option<int> {
    colon_from(t, 0)
}

pub proof fn lemma_scan_step(t: Seq<char>, p: int)
    requires
        0 <= p < t.len(),
    ensures
        scan(t.take(p + 1)) == step(scan(t.take(p)), t[p]),
{
    assert(t.take(p + 1).drop_last() =~= t.take(p));
}

pub proof fn lemma_seg_start_bounds(t: Seq<char>, p: int)
    requires
        0 <= p,
    ensures
        0 <= seg_start(t, p) <= p,
    decreases p,
{
    if p > 0 && !is_sep(t, p - 1) {
        lemma_seg_start_bounds(t, p - 1);
    }
}

pub proof fn lemma_seg_pair_bounds(t: Seq<char>, a: int, b: int)
    requires
        0 <= a <= b <= t.len(),
    ensures
        forall|k: int|
            0 <= k < seg_pair(t, a, b).len() ==> a <= (#[trigger] seg_pair(t, a, b)[k]).0 < seg_pair(
                t,
                a,
                b,
            )[k].1 <= b,
{
    let s = t.subrange(a, b);
    lemma_lead_ws(s);
    lemma_trail_ws(s);
    if trim(s).len() != 0 {
        assert(lead_ws(s) < s.len());
        if lead_ws(s) + trail_ws(s) >= s.len() {
            assert(!crate::text::is_ws(s[lead_ws(s) as int]));
            assert(crate::text::is_ws(s[lead_ws(s) as int]));
        }
    }
}

pub proof fn lemma_pairs_upto_bounds(t: Seq<char>, p: int)
    requires
        0 <= p <= t.len(),
    ensures
        forall|k: int|
            0 <= k < pairs_upto(t, p).len() ==> 0 <= (#[trigger] pairs_upto(t, p)[k]).0
                < pairs_upto(t, p)[k].1 <= p,
    decreases p,
{
    if p > 0 {
        lemma_pairs_upto_bounds(t, p - 1);
        let prev = pairs_upto(t, p - 1);
        let extra = if is_sep(t, p - 1) {
            seg_pair(t, seg_start(t, p - 1), p - 1)
        } else {
            Seq::empty()
        };
        if is_sep(t, p - 1) {
            lemma_seg_start_bounds(t, p - 1);
            lemma_seg_pair_bounds(t, seg_start(t, p - 1), p - 1);
        }
        assert forall|k: int| 0 <= k < pairs_upto(t, p).len() implies 0 <= (#[trigger] pairs_upto(
            t,
            p,
        )[k]).0 < pairs_upto(t, p)[k].1 <= p by {
            if k < prev.len() {
                assert(pairs_upto(t, p)[k] == prev[k]);
            } else {
                assert(pairs_upto(t, p)[k] == extra[k - prev.len()]);
            }
        }
    }
}

/// Every pair lies inside `t` and is not empty.
pub proof fn lemma_pairs_bounds(t: Seq<char>)
    ensures
        forall|k: int|
            0 <= k < pairs_of(t).len() ==> 0 <= (#[trigger] pairs_of(t)[k]).0 < pairs_of(t)[k].1
                <= t.len(),
{
    let n = t.len() as int;
    lemma_pairs_upto_bounds(t, n);
    lemma_seg_start_bounds(t, n);
    lemma_seg_pair_bounds(t, seg_start(t, n), n);
    let prev = pairs_upto(t, n);
    let extra = seg_pair(t, seg_start(t, n), n);
    assert forall|k: int| 0 <= k < pairs_of(t).len() implies 0 <= (#[trigger] pairs_of(t)[k]).0
        < pairs_of(t)[k].1 <= t.len() by {
        if k < prev.len() {
            assert(pairs_of(t)[k] == prev[k]);
        } else {
            assert(pairs_of(t)[k] == extra[k - prev.len()]);
        }
    }
}

pub open spec fn state_tuple(st: ScanState) -> (bool, bool, nat, nat) {
    (st.in_quotes, st.escape, st.braces, st.brackets)
}

/// Exec step of the scanner over `(in_quotes, escape, braces, brackets)`.
fn step_exec(q: bool, e: bool, db: usize, dk: usize, c: char) -> (r: (bool, bool, usize, usize))
    requires
        db < usize::MAX,
        dk < usize::MAX,
    ensures
        (r.0, r.1, r.2 as nat, r.3 as nat) == state_tuple(
            step(ScanState { in_quotes: q, escape: e, braces: db as nat, brackets: dk as nat }, c),
        ),
        r.2 <= db + 1,
        r.3 <= dk + 1,
{
    if q {
        if e {
            (true, false, db, dk)
        } else if c == '\\' {
            (true, true, db, dk)
        } else if c == '"' {
            (false, false, db, dk)
        } else {
            (true, false, db, dk)
        }
    } else if c == '"' {
        (true, e, db, dk)
    } else if c == '{' {
        (q, e, db + 1, dk)
    } else if c == '}' {
        (q, e, if db == 0 { 0 } else { db - 1 }, dk)
    } else if c == '[' {
        (q, e, db, dk + 1)
    } else if c == ']' {
        (q, e, db, if dk == 0 { 0 } else { dk - 1 })
    } else {
        (q, e, db, dk)
    }
}

/// The top-level pairs of `v[lo..hi]`, as character bounds in `v`.
pub fn split_pairs(v: &Vec<char>, lo: usize, hi: usize) -> (r: Vec<(usize, usize)>)
    requires
        lo <= hi <= v@.len(),
    ensures
        r@.len() == pairs_of(v@.subrange(lo as int, hi as int)).len(),
        forall|k: int|
            0 <= k < r@.len() ==> (#[trigger] r@[k]).0 - lo == pairs_of(
                v@.subrange(lo as int, hi as int),
            )[k].0 && r@[k].1 - lo == pairs_of(v@.subrange(lo as int, hi as int))[k].1,
        forall|k: int| 0 <= k < r@.len() ==> lo <= (#[trigger] r@[k]).0 < r@[k].1 <= hi,
{
    let ghost t = v@.subrange(lo as int, hi as int);
    let mut r: Vec<(usize, usize)> = Vec::new();
    let mut q = false;
    let mut e = false;
    let mut db: usize = 0;
    let mut dk: usize = 0;
    let mut start = lo;
    let mut i = lo;
    proof {
        assert(t.take(0) =~= Seq::<char>::empty());
    }
    while i < hi
        invariant
            lo <= start <= i <= hi <= v@.len(),
            t == v@.subrange(lo as int, hi as int),
            state_tuple(scan(t.take(i - lo))) == (q, e, db as nat, dk as nat),
            db <= i - lo,
            dk <= i - lo,
            start - lo == seg_start(t, i - lo),
            r@.len() == pairs_upto(t, i - lo).len(),
            forall|k: int|
                0 <= k < r@.len() ==> (#[trigger] r@[k]).0 - lo == pairs_upto(t, i - lo)[k].0
                    && r@[k].1 - lo == pairs_upto(t, i - lo)[k].1 && lo <= r@[k].0,
        decreases hi - i,
    {
        let c = v[i];
        let ghost p = i - lo;
        proof {
            lemma_scan_step(t, p);
            assert(t[p] == c);
        }
        if !q && c == ',' && db == 0 && dk == 0 {
            proof {
                assert(is_sep(t, p));
                lemma_seg_start_bounds(t, p);
                assert(t.subrange(start - lo, p) =~= v@.subrange(start as int, i as int));
            }
            let (a, b) = trim_bounds(v, start, i);
            if a < b {
                r.push((a, b));
            }
            proof {
                let s = v@.subrange(start as int, i as int);
                crate::text::lemma_lead_ws(s);
                crate::text::lemma_trail_ws(s);
                if trim(s).len() == 0 {
                    assert(v@.subrange(a as int, b as int).len() == 0);
                } else {
                    assert(b - a == trim(s).len());
                    assert(trim(s) == s.subrange(lead_ws(s) as int, s.len() - trail_ws(s)));
                }
                assert(pairs_upto(t, p + 1) =~= pairs_upto(t, p) + seg_pair(t, start - lo, p));
            }
            start = i + 1;
        } else {
            proof {
                assert(!is_sep(t, p));
                assert(pairs_upto(t, p + 1) =~= pairs_upto(t, p));
            }
        }
        let st = step_exec(q, e, db, dk, c);
        q = st.0;
        e = st.1;
        db = st.2;
        dk = st.3;
        i = i + 1;
    }
    proof {
        assert(t.subrange(start - lo, t.len() as int) =~= v@.subrange(start as int, hi as int));
    }
    let (a, b) = trim_bounds(v, start, hi);
    if a < b {
        r.push((a, b));
    }
    proof {
        let s = v@.subrange(start as int, hi as int);
        crate::text::lemma_lead_ws(s);
        crate::text::lemma_trail_ws(s);
        if trim(s).len() != 0 {
            assert(b - a == trim(s).len());
        }
        assert(pairs_of(t) =~= pairs_upto(t, t.len() as int) + seg_pair(
            t,
            start - lo,
            t.len() as int,
        ));
        lemma_pairs_bounds(t);
        assert forall|k: int| 0 <= k < r@.len() implies lo <= (#[trigger] r@[k]).0 < r@[k].1
            <= hi by {
            assert(0 <= pairs_of(t)[k].0 < pairs_of(t)[k].1 <= t.len());
        }
    }
    r
}

/// Index in `v` of the first top-level `:` of `v[lo..hi]`.
pub fn find_top_colon(v: &Vec<char>, lo: usize, hi: usize) -> (r: Option<usize>)
    requires
        lo <= hi <= v@.len(),
    ensures
        match r {
            Some(i) => lo <= i < hi && top_colon(v@.subrange(lo as int, hi as int)) == Some(
                i - lo,
            ),
            None => top_colon(v@.subrange(lo as int, hi as int)) is None,
        },
{
    let ghost t = v@.subrange(lo as int, hi as int);
    let mut q = false;
    let mut e = false;
    let mut db: usize = 0;
    let mut dk: usize = 0;
    let mut i = lo;
    proof {
        assert(t.take(0) =~= Seq::<char>::empty());
    }
    while i < hi
        invariant
            lo <= i <= hi <= v@.len(),
            t == v@.subrange(lo as int, hi as int),
            state_tuple(scan(t.take(i - lo))) == (q, e, db as nat, dk as nat),
            db <= i - lo,
            dk <= i - lo,
            top_colon(t) == colon_from(t, i - lo),
        decreases hi - i,
    {
        let c = v[i];
        let ghost p = i - lo;
        proof {
            lemma_scan_step(t, p);
            assert(t[p] == c);
        }
        if !q && c == ':' && db == 0 && dk == 0 {
            return Some(i);
        }
        let st = step_exec(q, e, db, dk, c);
        q = st.0;
        e = st.1;
        db = st.2;
        dk = st.3;
        i = i + 1;
    }
    None
}

// ---------------------------------------------------------------------------
// Balanced braces

/// Number of `{` minus number of `}` in `s[lo..hi]`.
pub open spec fn brace_balance(s: Seq<char>, lo: int, hi: int) -> int
    decreases hi - lo,
{
    if hi <= lo {
        0
    } else {
        brace_balance(s, lo, hi - 1) + if s[hi - 1] == '{' {
            1int
        } else if s[hi - 1] == '}' {
            -1int
        } else {
            0
        }
    }
}

/// Brace balance of `s[i..=k]`.
pub open spec fn depth_through(s: Seq<char>, i: int, k: int) -> int {
    brace_balance(s, i, k + 1)
}

/// The `}` that closes the `{` at index `i`: the first `j > i` at which the
/// braces of `s[i..=j]` balance.
pub open spec fn closing_brace(s: Seq<char>, i: int, j: int) -> bool {
    &&& i < j < s.len()
    &&& depth_through(s, i, j) == 0
    &&& forall|k: int| i <= k < j ==> #[trigger] depth_through(s, i, k) > 0
}

/// Character bounds of the text inside the braces that open at index `i` of
/// `v`, if `v[i]` is `{` and the braces close.
pub fn braced_content(v: &Vec<char>, i: usize) -> (r: Option<(usize, usize)>)
    requires
        i < v@.len(),
        v@[i as int] == '{',
    ensures
        match r {
            Some((a, b)) => a == i + 1 && closing_brace(v@, i as int, b as int),
            None => forall|j: int| i < j < v@.len() ==> !closing_brace(v@, i as int, j),
        },
{
    let n = v.len();
    let mut depth: usize = 1;
    let mut j = i + 1;
    proof {
        assert(brace_balance(v@, i as int, i as int) == 0);
        assert(brace_balance(v@, i as int, i + 1) == 1);
    }
    while j < n
        invariant
            n == v@.len(),
            i < j <= n,
            depth as int == brace_balance(v@, i as int, j as int),
            depth >= 1,
            depth <= j - i,
            forall|k: int| i <= k < j ==> #[trigger] depth_through(v@, i as int, k) > 0,
        decreases n - j,
    {
        let c = v[j];
        if c == '{' {
            depth = depth + 1;
        } else if c == '}' {
            depth = depth - 1;
            if depth == 0 {
                return Some((i + 1, j));
            }
        }
        j = j + 1;
    }
    None
}

} // verus!
