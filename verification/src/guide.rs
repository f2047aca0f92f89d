//! Skip tables for the Boyer-Moore scan, derived once from the pattern.
//!
//! The tables answer one question: after a mismatch, how far ahead may the
//! matching frame move without passing an alignment that could still match?
//! Both tables store distances measured from the comparison index, as in the
//! classic derivation; the matcher floors the resulting frame advance at 1.

use vstd::prelude::*;

use crate::specs::occurs_at;

verus! {

broadcast use vstd::slice::axiom_spec_len;

/// The contract of the mismatch (bad-character) table: every entry is in
/// `[1, m]`; the `tbl[v] - 1` pattern positions left of the last one hold no
/// byte `v`, so skipping that far passes no alignment that puts `v` under
/// the mismatching text byte; and an entry below `m` points back at an
/// occurrence of `v`. Together these say each entry is the distance from
/// the rightmost occurrence of `v` before the pattern's last position to
/// the pattern's end, or the pattern's length where there is none.
pub(crate) open spec fn bc_ok(pattern: Seq<u8>, tbl: Seq<usize>) -> bool {
    &&& forall|v: u8| 1 <= #[trigger] tbl[v as int] <= pattern.len()
    &&& forall|v: u8, x: int|
        pattern.len() - 1 - #[trigger] tbl[v as int] < x < pattern.len() - 1
            ==> #[trigger] pattern[x] != v
    &&& forall|v: u8|
        #[trigger] tbl[v as int] < pattern.len()
            ==> pattern[pattern.len() - 1 - tbl[v as int]] == v
}

/// The pattern's suffix starting at `p` is also a prefix of the pattern.
pub(crate) open spec fn prefix_pos(pattern: Seq<u8>, p: int) -> bool {
    forall|k: int| p <= k < pattern.len() ==> pattern[k - p] == #[trigger] pattern[k]
}

/// Shifting the window right by `t` is consistent with what a mismatch at
/// pattern index `jj` revealed: the matched suffix `pattern[jj+1..]` agrees
/// with the pattern again under the shift, and the byte that lands under the
/// mismatching text byte differs from `pattern[jj]`.
pub(crate) open spec fn good_shift(pattern: Seq<u8>, jj: int, t: int) -> bool {
    &&& forall|k: int|
        jj < k < pattern.len() && k - t >= 0 ==> pattern[k - t] == #[trigger] pattern[k]
    &&& (jj - t >= 0 ==> pattern[jj - t] != pattern[jj])
}

/// The safety contract of the matched-suffix (good-suffix) table: an entry at
/// `jj` of value `d` promises that no window shift smaller than
/// `d - (m - 1 - jj)` is consistent with the mismatch, so the frame may
/// advance by that much.
pub(crate) open spec fn gs_ok(pattern: Seq<u8>, tbl: Seq<usize>) -> bool {
    forall|jj: int, t: int|
        0 <= jj < pattern.len() && 1 <= t && t + (pattern.len() - 1 - jj) < tbl[jj]
            ==> !#[trigger] good_shift(pattern, jj, t)
}

/// What pass one of the suffix-table build guarantees for one entry: every
/// shift below the entry's reach either leaves part of the pattern over the
/// mismatch (`t <= jj`) or fails to align a suffix with the prefix.
pub(crate) open spec fn p1ok(pattern: Seq<u8>, jj: int, val: int) -> bool {
    forall|t: int|
        1 <= t && t + (pattern.len() - 1 - jj) < val
            ==> t <= jj || (t < pattern.len() && !#[trigger] prefix_pos(pattern, t))
}

/// `r` is the length of the longest common suffix of `a` and `b`.
pub(crate) open spec fn is_shared_suffix_len(a: Seq<u8>, b: Seq<u8>, r: int) -> bool {
    &&& 0 <= r <= a.len()
    &&& r <= b.len()
    &&& forall|l: int| 0 <= l < r ==> a[a.len() - 1 - l] == #[trigger] b[b.len() - 1 - l]
    &&& (r == a.len() || r == b.len() || a[a.len() - 1 - r] != b[b.len() - 1 - r])
}

/// The longest common suffix has one length only.
pub(crate) proof fn lemma_shared_suffix_len_unique(a: Seq<u8>, b: Seq<u8>, r1: int, r2: int)
    requires
        is_shared_suffix_len(a, b, r1),
        is_shared_suffix_len(a, b, r2),
    ensures
        r1 == r2,
{
    if r1 < r2 {
        assert(b[b.len() - 1 - r1] == a[a.len() - 1 - r1]);
    }
    if r2 < r1 {
        assert(b[b.len() - 1 - r2] == a[a.len() - 1 - r2]);
    }
}

/// A window shift that keeps part of the pattern over the mismatch and is
/// consistent with the matched suffix is found by the interior pass of the
/// table build: at iteration `m - 1 - t`, the shared suffix it measures is
/// exactly the matched one, and the bytes left of it differ.
proof fn lemma_interior_shift_detected(pattern: Seq<u8>, jj: int, t: int)
    requires
        1 <= pattern.len(),
        0 <= jj < pattern.len(),
        1 <= t <= jj,
        good_shift(pattern, jj, t),
    ensures
        is_shared_suffix_len(
            pattern,
            pattern.subrange(1, pattern.len() - t),
            pattern.len() - 1 - jj,
        ),
        pattern[jj - t] != pattern[jj],
{
    let m = pattern.len() as int;
    let sfx = m - 1 - jj;
    let b = pattern.subrange(1, m - t);
    assert(b.len() == m - t - 1);
    assert forall|l: int| 0 <= l < sfx implies pattern[m - 1 - l] == #[trigger] b[b.len() - 1
        - l] by {
        let k = m - 1 - l;
        assert(jj < k < m && k - t >= 0);
        assert(pattern[k - t] == pattern[k]);
        assert(b[b.len() - 1 - l] == pattern[1 + (m - t - 2 - l)]);
    }
    assert(pattern[jj - t] != pattern[jj]);
    if sfx < m - t - 1 {
        assert(b[b.len() - 1 - sfx] == pattern[1 + (m - t - 2 - sfx)]);
        assert(1 + (m - t - 2 - sfx) == jj - t);
    }
}

/// Guide contains information to guide the string search derived from
/// preprocessing the search pattern. The search aligns the pattern against
/// the text in matching frames; the tables bound how far the frame can move
/// right after a mismatch without skipping a possible match.
pub(crate) struct Guide {
    /// For a text byte `v` that mismatches, the distance from the rightmost
    /// occurrence of `v` before the pattern's last position to the pattern's
    /// end; the pattern's length where there is no such occurrence.
    pub(crate) mismatch_skip: Vec<usize>,
    /// For a mismatch at pattern index `jj` after the suffix right of `jj`
    /// matched, the distance to the next alignment consistent with that
    /// suffix, measured like the classic derivation from the comparison
    /// index.
    pub(crate) matched_suffix_skip: Vec<usize>,
}

impl Guide {
    /// Both tables exist in full and keep their safety contracts for
    /// `pattern`.
    pub(crate) open spec fn wf(self, pattern: Seq<u8>) -> bool {
        &&& self.mismatch_skip@.len() == 256
        &&& bc_ok(pattern, self.mismatch_skip@)
        &&& self.matched_suffix_skip@.len() == pattern.len()
        &&& gs_ok(pattern, self.matched_suffix_skip@)
    }

    /// The combined safe skip for a mismatching byte `v` at pattern index
    /// `i`: the larger of the two tables' distances.
    pub(crate) fn skip(&self, v: u8, i: usize) -> (s: usize)
        requires
            self.mismatch_skip@.len() == 256,
            i < self.matched_suffix_skip@.len(),
        ensures
            s == self.mismatch_skip@[v as int] || s == self.matched_suffix_skip@[i as int],
            s >= self.mismatch_skip@[v as int],
            s >= self.matched_suffix_skip@[i as int],
    {
        let a = self.mismatch_skip[v as usize];
        let b = self.matched_suffix_skip[i];
        if a >= b {
            a
        } else {
            b
        }
    }

    /// Derive both tables from the pattern.
    pub(crate) fn from(pattern: &[u8]) -> (guide: Guide)
        requires
            pattern@.len() >= 1,
        ensures
            guide.wf(pattern@),
    {
        Guide {
            mismatch_skip: Guide::build_mismatch_skips(pattern),
            matched_suffix_skip: Guide::build_matched_suffix_skips(pattern),
        }
    }

    /// Build the mismatch table: default entry is the pattern's length; a
    /// scan over all but the last position writes the distance from each
    /// byte's occurrence to the pattern's end, later occurrences
    /// overwriting earlier ones.
    fn build_mismatch_skips(pattern: &[u8]) -> (tbl: Vec<usize>)
        requires
            pattern@.len() >= 1,
        ensures
            tbl@.len() == 256,
            bc_ok(pattern@, tbl@),
    {
        let m = pattern.len();
        let mut skips: Vec<usize> = Vec::new();
        let mut n: usize = 0;
        while n < 256
            invariant
                n <= 256,
                skips@.len() == n,
                m == pattern@.len(),
                forall|x: int| 0 <= x < n ==> #[trigger] skips@[x] == m,
            decreases 256 - n,
        {
            skips.push(m);
            n = n + 1;
        }
        let mut i: usize = 0;
        while i < m - 1
            invariant
                m == pattern@.len(),
                1 <= m,
                i <= m - 1,
                skips@.len() == 256,
                forall|v: u8| 1 <= #[trigger] skips@[v as int] <= m,
                forall|v: u8, x: int|
                    m - 1 - #[trigger] skips@[v as int] < x < i
                        ==> #[trigger] pattern@[x] != v,
                forall|v: u8|
                    #[trigger] skips@[v as int] < m ==> pattern@[m - 1 - skips@[v as int]]
                        == v,
            decreases m - 1 - i,
        {
            let c = pattern[i] as usize;
            skips[c] = m - 1 - i;
            i = i + 1;
        }
        skips
    }

    /// is_prefix returns whether text begins with prefix.
    fn is_prefix(text: &[u8], prefix: &[u8]) -> (r: bool)
        ensures
            r == (prefix@.len() <= text@.len() && (forall|k: int|
                0 <= k < prefix@.len() ==> text@[k] == #[trigger] prefix@[k])),
    {
        if prefix.len() > text.len() {
            return false;
        }
        let mut k: usize = 0;
        while k < prefix.len()
            invariant
                k <= prefix@.len() <= text@.len(),
                forall|x: int| 0 <= x < k ==> text@[x] == #[trigger] prefix@[x],
            decreases prefix@.len() - k,
        {
            if text[k] != prefix[k] {
                return false;
            }
            k = k + 1;
        }
        true
    }

    /// Build the matched-suffix table in two passes. Pass one walks the
    /// pattern right to left, tracking the nearest suffix that is also a
    /// prefix, and records the skip that realigns the frame with that
    /// prefix. Pass two walks all interior prefixes, and where a matched
    /// suffix recurs inside the pattern with a different byte to its left,
    /// overwrites the entry with the tighter skip to that recurrence.
    fn build_matched_suffix_skips(pattern: &[u8]) -> (tbl: Vec<usize>)
        requires
            pattern@.len() >= 1,
        ensures
            tbl@.len() == pattern@.len(),
            gs_ok(pattern@, tbl@),
    {
        let m = pattern.len();
        let end = m - 1;
        let mut skips: Vec<usize> = Vec::new();
        let mut n: usize = 0;
        while n < m
            invariant
                n <= m,
                skips@.len() == n,
                forall|x: int| 0 <= x < n ==> #[trigger] skips@[x] == 0,
            decreases m - n,
        {
            skips.push(0);
            n = n + 1;
        }

        // next_prefix is the skip to the next instance of the prefix in the
        // search pattern.
        let mut next_prefix: usize = end;
        let mut ii: usize = end;
        while ii > 0
            invariant
                m == pattern@.len(),
                1 <= m,
                end == m - 1,
                skips@.len() == m,
                ii <= end,
                next_prefix <= end,
                forall|p: int| ii < p < next_prefix ==> !#[trigger] prefix_pos(pattern@, p),
                forall|jj: int|
                    0 <= jj < m ==> p1ok(pattern@, jj, #[trigger] skips@[jj] as int),
            decreases ii,
        {
            let i = ii - 1;
            let tail = vstd::slice::slice_subrange(pattern, i + 1, m);
            if Guide::is_prefix(pattern, tail) {
                proof {
                    assert forall|k: int| i + 1 <= k < m implies pattern@[k - (i + 1)]
                        == #[trigger] pattern@[k] by {
                        assert(pattern@[k - i - 1] == tail@[k - i - 1]);
                    }
                    assert(prefix_pos(pattern@, i + 1));
                }
                next_prefix = i + 1;
            } else {
                proof {
                    if prefix_pos(pattern@, i + 1) {
                        assert forall|k: int| 0 <= k < tail@.len() implies pattern@[k]
                            == tail@[k] by {
                            assert(pattern@[(k + i + 1) - (i + 1)] == pattern@[k + i + 1]);
                        }
                        assert(false);
                    }
                }
            }
            // Set the skip for a given index to the skip required to align
            // the matching frame with the next instance of the search
            // pattern's prefix. The guard only matters for patterns near the
            // address-space limit, where the sum would not fit.
            let off = end - i;
            let val = if next_prefix <= usize::MAX - off {
                next_prefix + off
            } else {
                1
            };
            skips[i] = val;
            proof {
                assert forall|t: int|
                    1 <= t && t + (m - 1 - i) < val implies t <= i as int || (t < m
                        && !prefix_pos(pattern@, t)) by {
                    if t > i as int {
                        assert(i < t < next_prefix);
                        assert(!prefix_pos(pattern@, t));
                    }
                }
                assert(p1ok(pattern@, i as int, val as int));
            }
            ii = i;
        }

        proof {
            assert forall|jj: int, t: int|
                0 <= jj < m && 1 <= t && t + (m - 1 - jj) < skips@[jj]
                    && #[trigger] good_shift(pattern@, jj, t) implies t <= jj && 0 + t
                    < m by {
                assert(p1ok(pattern@, jj, skips@[jj] as int));
                if t > jj {
                    assert forall|k: int| t <= k < m implies pattern@[k - t]
                        == #[trigger] pattern@[k] by {
                        assert(jj < k < m && k - t >= 0);
                    }
                    assert(prefix_pos(pattern@, t));
                    assert(false);
                }
            }
        }

        let mut i: usize = 0;
        while i < end
            invariant
                m == pattern@.len(),
                1 <= m,
                end == m - 1,
                skips@.len() == m,
                i <= end,
                forall|jj: int, t: int|
                    0 <= jj < m && 1 <= t && t + (m - 1 - jj) < skips@[jj]
                        && #[trigger] good_shift(pattern@, jj, t) ==> t <= jj && i + t < m,
            decreases end - i,
        {
            let sub = vstd::slice::slice_subrange(pattern, 1, i + 1);
            let suflen = Guide::suffix_len(pattern, sub);
            proof {
                assert(suflen <= i);
            }
            let wrote = pattern[i - suflen] != pattern[end - suflen];
            if wrote {
                skips[end - suflen] = suflen + (end - i);
            }
            proof {
                assert forall|jj: int, t: int|
                    0 <= jj < m && 1 <= t && t + (m - 1 - jj) < skips@[jj]
                        && #[trigger] good_shift(pattern@, jj, t) implies t <= jj && (i + 1)
                        + t < m by {
                    if wrote && jj == end - suflen {
                        // the freshly written entry claims the shift end - i
                        // and no more
                        assert(t + suflen < suflen + (end - i));
                        assert(t < end - i);
                    } else {
                        // entry unchanged; rule out the one shift whose
                        // detecting iteration is this very one
                        assert(t <= jj && i + t < m);
                        if i + t == m - 1 {
                            lemma_interior_shift_detected(pattern@, jj, t);
                            lemma_shared_suffix_len_unique(
                                pattern@,
                                sub@,
                                suflen as int,
                                m - 1 - jj,
                            );
                            assert(jj == end - suflen);
                            assert(pattern@[i - suflen] != pattern@[end - suflen]);
                            assert(false);
                        }
                    }
                }
            }
            i = i + 1;
        }

        proof {
            assert forall|jj: int, t: int|
                0 <= jj < pattern@.len() && 1 <= t && t + (pattern@.len() - 1 - jj)
                    < skips@[jj] implies !#[trigger] good_shift(pattern@, jj, t) by {
                if good_shift(pattern@, jj, t) {
                    assert(i + t < m);
                    assert(false);
                }
            }
        }
        skips
    }

    /// suffix_len returns the length of the suffix a and b share.
    fn suffix_len(a: &[u8], b: &[u8]) -> (r: usize)
        ensures
            is_shared_suffix_len(a@, b@, r as int),
    {
        let bound = if a.len() < b.len() {
            a.len()
        } else {
            b.len()
        };
        let mut r: usize = 0;
        while r < bound && a[a.len() - 1 - r] == b[b.len() - 1 - r]
            invariant
                r <= bound,
                bound <= a@.len(),
                bound <= b@.len(),
                bound == a@.len() || bound == b@.len(),
                forall|l: int|
                    0 <= l < r ==> a@[a@.len() - 1 - l] == #[trigger] b@[b@.len() - 1 - l],
            decreases bound - r,
        {
            r = r + 1;
        }
        r
    }
}

/// Safety of one applied skip: with the window at `base`, the suffix right
/// of pattern index `j - 1` matched and the byte under `j - 1` did not. Any
/// smaller window shift than either table allows leaves no occurrence, so
/// the pattern does not occur at `base + t`.
pub(crate) proof fn lemma_skip_excludes(
    text: Seq<u8>,
    pattern: Seq<u8>,
    tbl1: Seq<usize>,
    tbl2: Seq<usize>,
    base: int,
    j: int,
    t: int,
)
    requires
        1 <= pattern.len(),
        tbl1.len() == 256,
        bc_ok(pattern, tbl1),
        tbl2.len() == pattern.len(),
        gs_ok(pattern, tbl2),
        0 <= base,
        base + pattern.len() <= text.len(),
        1 <= j <= pattern.len(),
        forall|k: int| j <= k < pattern.len() ==> text[base + k] == #[trigger] pattern[k],
        text[base + j - 1] != pattern[j - 1],
        1 <= t,
        t + (pattern.len() - j) < tbl1[text[base + j - 1] as int] || t + (pattern.len() - j)
            < tbl2[j - 1],
    ensures
        !occurs_at(text, pattern, base + t),
{
    let m = pattern.len() as int;
    let jj = j - 1;
    let v = text[base + jj];
    if occurs_at(text, pattern, base + t) {
        if t + (m - j) < tbl1[v as int] {
            // the bad-character rule: every pattern position the shift can
            // put under the mismatching byte holds something other than `v`
            assert(tbl1[v as int] <= m);
            assert(jj - t >= 0);
            assert(m - 1 - tbl1[v as int] < jj - t < m - 1);
            assert(pattern[jj - t] != v);
            assert(text[(base + t) + (jj - t)] == pattern[jj - t]);
            assert(false);
        } else {
            // the matched-suffix rule: an occurrence under this shift would
            // make the shift consistent with the mismatch
            assert forall|k: int| jj < k < m && k - t >= 0 implies pattern[k - t]
                == #[trigger] pattern[k] by {
                assert(text[(base + t) + (k - t)] == pattern[k - t]);
                assert(text[base + k] == pattern[k]);
            }
            if jj - t >= 0 {
                assert(text[(base + t) + (jj - t)] == pattern[jj - t]);
            }
            assert(good_shift(pattern, jj, t));
            assert(false);
        }
    }
}

} // verus!
