//! The mathematical model of an occupancy table: a sequence of bits, the
//! runs of free bits inside it, and the count of free bits.
//!
//! Bit `i` of the table is `true` when unit `i` is occupied and `false` when
//! it is free.  `logical` is the number of bits in active use; runs that
//! satisfy an allocation must lie inside `[0, logical)`.

use vstd::prelude::*;

verus! {

use crate::bitops::byte_bit;

/// The occupancy bits packed into a byte sequence: bit `i` lives in byte
/// `i / 8` at offset `i % 8`.
pub open spec fn bits_of(bytes: Seq<u8>) -> Seq<bool> {
    Seq::new((bytes.len() * 8) as nat, |i: int| byte_bit(bytes[i / 8], (i % 8) as u8))
}

/// Bits `[s, s + n)` all lie inside the logical range and are free.
pub open spec fn free_run(occ: Seq<bool>, logical: int, s: int, n: int) -> bool {
    &&& 0 <= s
    &&& 0 <= n
    &&& s + n <= logical
    &&& forall|i: int| s <= i < s + n ==> !occ[i]
}

/// Some run of `n` consecutive free bits fits inside the logical range.
pub open spec fn has_fit(occ: Seq<bool>, logical: int, n: int) -> bool {
    exists|s: int| free_run(occ, logical, s, n)
}

/// `s` is the start of the first free run of length `n`: the run is free and
/// no run of that length starts earlier.
pub open spec fn is_first_fit(occ: Seq<bool>, logical: int, s: int, n: int) -> bool {
    &&& free_run(occ, logical, s, n)
    &&& forall|t: int| 0 <= t < s ==> !free_run(occ, logical, t, n)
}

/// Bit `i` is in range and occupied.  The in-range test mirrors the bitmap's
/// boundary convention: index `logical` itself is still readable, anything
/// above it counts as free.
pub open spec fn occupied_at(occ: Seq<bool>, logical: int, i: int) -> bool {
    0 <= i <= logical && i < occ.len() && occ[i]
}

/// Every bit of `[s, s + n)` is in range and occupied.
pub open spec fn range_occupied(occ: Seq<bool>, logical: int, s: int, n: int) -> bool {
    forall|i: int| s <= i < s + n ==> #[trigger] occupied_at(occ, logical, i)
}

/// The number of free bits among the first `n` bits of `occ`.
pub open spec fn count_free(occ: Seq<bool>, n: int) -> int
    decreases n,
{
    if n <= 0 {
        0
    } else {
        count_free(occ, n - 1) + (if occ[n - 1] {
            0int
        } else {
            1int
        })
    }
}

/// The free count over a prefix is between zero and the prefix length.
pub proof fn lemma_count_free_bounds(occ: Seq<bool>, n: int)
    ensures
        0 <= count_free(occ, n) <= if n <= 0 {
            0int
        } else {
            n
        },
    decreases n,
{
    if n > 0 {
        lemma_count_free_bounds(occ, n - 1);
    }
}

/// The free count grows with the prefix, by at most the added length.
pub proof fn lemma_count_free_mono(occ: Seq<bool>, lo: int, hi: int)
    requires
        lo <= hi,
    ensures
        count_free(occ, lo) <= count_free(occ, hi),
        count_free(occ, hi) - count_free(occ, lo) <= hi - lo,
    decreases hi - lo,
{
    if lo < hi {
        lemma_count_free_mono(occ, lo, hi - 1);
    }
}

/// Two tables that agree on `[lo, n)` gain the same number of free bits there.
pub proof fn lemma_count_free_agree_above(a: Seq<bool>, b: Seq<bool>, lo: int, n: int)
    requires
        0 <= lo <= n,
        forall|i: int| lo <= i < n ==> a[i] == b[i],
    ensures
        count_free(a, n) - count_free(a, lo) == count_free(b, n) - count_free(b, lo),
    decreases n - lo,
{
    if lo < n {
        lemma_count_free_agree_above(a, b, lo, n - 1);
        assert(a[n - 1] == b[n - 1]);
    }
}

/// Two tables that agree on `[0, n)` have the same free count there.
pub proof fn lemma_count_free_agree(a: Seq<bool>, b: Seq<bool>, n: int)
    requires
        forall|i: int| 0 <= i < n ==> a[i] == b[i],
    ensures
        count_free(a, n) == count_free(b, n),
{
    if n >= 0 {
        lemma_count_free_agree_above(a, b, 0, n);
    }
}

/// A segment of free bits contributes its full length to the count.
pub proof fn lemma_count_free_free_segment(occ: Seq<bool>, lo: int, hi: int)
    requires
        0 <= lo,
        lo <= hi,
        forall|i: int| lo <= i < hi ==> !occ[i],
    ensures
        count_free(occ, hi) == count_free(occ, lo) + (hi - lo),
    decreases hi - lo,
{
    if lo < hi {
        lemma_count_free_free_segment(occ, lo, hi - 1);
        assert(!occ[hi - 1]);
    }
}

/// A segment of occupied bits contributes nothing to the count.
pub proof fn lemma_count_free_occupied_segment(occ: Seq<bool>, lo: int, hi: int)
    requires
        0 <= lo,
        lo <= hi,
        forall|i: int| lo <= i < hi ==> occ[i],
    ensures
        count_free(occ, hi) == count_free(occ, lo),
    decreases hi - lo,
{
    if lo < hi {
        lemma_count_free_occupied_segment(occ, lo, hi - 1);
    }
}

/// A table whose first `n` bits are all free counts `n` free bits.
pub proof fn lemma_count_free_all_free(occ: Seq<bool>, n: int)
    requires
        0 <= n,
        forall|i: int| 0 <= i < n ==> !occ[i],
    ensures
        count_free(occ, n) == n,
{
    lemma_count_free_free_segment(occ, 0, n);
}

/// A free run of length `n` inside the first `m` bits guarantees at least
/// `n` free bits among them.
pub proof fn lemma_free_run_le_count(occ: Seq<bool>, s: int, n: int, m: int)
    requires
        0 <= s,
        0 <= n,
        s + n <= m,
        forall|i: int| s <= i < s + n ==> !occ[i],
    ensures
        count_free(occ, m) >= n,
{
    lemma_count_free_bounds(occ, s);
    lemma_count_free_free_segment(occ, s, s + n);
    lemma_count_free_mono(occ, s + n, m);
}

/// Marking a free range occupied lowers the free count by the range length.
pub proof fn lemma_count_free_after_set(a: Seq<bool>, b: Seq<bool>, n: int, s: int, k: int)
    requires
        0 <= s,
        0 <= k,
        s + k <= n,
        forall|i: int| 0 <= i < n && !(s <= i < s + k) ==> a[i] == b[i],
        forall|i: int| s <= i < s + k ==> !a[i] && b[i],
    ensures
        count_free(b, n) == count_free(a, n) - k,
{
    lemma_count_free_agree(a, b, s);
    lemma_count_free_free_segment(a, s, s + k);
    lemma_count_free_occupied_segment(b, s, s + k);
    lemma_count_free_agree_above(a, b, s + k, n);
}

/// Clearing an occupied range raises the free count by the range length.
pub proof fn lemma_count_free_after_clear(a: Seq<bool>, b: Seq<bool>, n: int, s: int, k: int)
    requires
        0 <= s,
        0 <= k,
        s + k <= n,
        forall|i: int| 0 <= i < n && !(s <= i < s + k) ==> a[i] == b[i],
        forall|i: int| s <= i < s + k ==> a[i] && !b[i],
    ensures
        count_free(b, n) == count_free(a, n) + k,
{
    lemma_count_free_agree(a, b, s);
    lemma_count_free_occupied_segment(a, s, s + k);
    lemma_count_free_free_segment(b, s, s + k);
    lemma_count_free_agree_above(a, b, s + k, n);
}

/// Allocating a free run and then releasing exactly that run is a round
/// trip: after the allocation every bit of the run is occupied, so the
/// release is accepted, and the occupancy returns to its original state.
pub proof fn lemma_alloc_release_round_trip(
    pre: Seq<bool>,
    mid: Seq<bool>,
    post: Seq<bool>,
    logical: int,
    s: int,
    n: int,
)
    requires
        logical <= pre.len(),
        mid.len() == pre.len(),
        post.len() == pre.len(),
        free_run(pre, logical, s, n),
        forall|i: int| 0 <= i < mid.len() ==> (#[trigger] mid[i]) == (pre[i] || s <= i < s + n),
        forall|i: int| 0 <= i < post.len() ==> (#[trigger] post[i]) == (mid[i] && !(s <= i < s
            + n)),
    ensures
        range_occupied(mid, logical, s, n),
        post == pre,
{
    assert forall|i: int| s <= i < s + n implies #[trigger] occupied_at(mid, logical, i) by {
        assert(mid[i] == (pre[i] || s <= i < s + n));
    }
    assert forall|i: int| 0 <= i < post.len() implies post[i] == pre[i] by {
        assert(mid[i] == (pre[i] || s <= i < s + n));
    }
    assert(post =~= pre);
}

/// The table with every bit of `[s, s + n)` forced to `v`.
pub open spec fn mark_range(occ: Seq<bool>, s: int, n: int, v: bool) -> Seq<bool> {
    Seq::new(occ.len(), |i: int| if s <= i < s + n {
        v
    } else {
        occ[i]
    })
}

/// The table after forcing each listed run `(start, length)` to `v`, in
/// order.
pub open spec fn mark_all(occ: Seq<bool>, runs: Seq<(int, int)>, v: bool) -> Seq<bool>
    decreases runs.len(),
{
    if runs.len() == 0 {
        occ
    } else {
        mark_all(mark_range(occ, runs[0].0, runs[0].1, v), runs.drop_first(), v)
    }
}

/// Bit `i` falls inside at least one of the listed runs.
pub open spec fn in_some_run(runs: Seq<(int, int)>, i: int) -> bool {
    exists|k: int| 0 <= k < runs.len() && (#[trigger] runs[k]).0 <= i < runs[k].0 + runs[k].1
}

/// Forcing runs never changes the table's length.
pub proof fn lemma_mark_all_len(occ: Seq<bool>, runs: Seq<(int, int)>, v: bool)
    ensures
        mark_all(occ, runs, v).len() == occ.len(),
    decreases runs.len(),
{
    if runs.len() > 0 {
        lemma_mark_all_len(mark_range(occ, runs[0].0, runs[0].1, v), runs.drop_first(), v);
    }
}

/// After forcing the listed runs to `v`, a bit reads `v` exactly when some
/// run covers it, and is untouched otherwise.
pub proof fn lemma_mark_all_at(occ: Seq<bool>, runs: Seq<(int, int)>, v: bool, i: int)
    requires
        0 <= i < occ.len(),
    ensures
        mark_all(occ, runs, v)[i] == (if in_some_run(runs, i) {
            v
        } else {
            occ[i]
        }),
    decreases runs.len(),
{
    lemma_mark_all_len(occ, runs, v);
    if runs.len() == 0 {
        if in_some_run(runs, i) {
            let k = choose|k: int|
                0 <= k < runs.len() && (#[trigger] runs[k]).0 <= i < runs[k].0 + runs[k].1;
        }
    } else {
        let first = runs[0];
        let rest = runs.drop_first();
        let m = mark_range(occ, first.0, first.1, v);
        lemma_mark_all_at(m, rest, v, i);
        if first.0 <= i < first.0 + first.1 {
            assert(runs[0].0 <= i < runs[0].0 + runs[0].1);
            assert(in_some_run(runs, i));
        }
        if in_some_run(rest, i) {
            let k = choose|k: int|
                0 <= k < rest.len() && (#[trigger] rest[k]).0 <= i < rest[k].0 + rest[k].1;
            assert(runs[k + 1] == rest[k]);
            assert(in_some_run(runs, i));
        }
        if in_some_run(runs, i) && !(first.0 <= i < first.0 + first.1) {
            let k = choose|k: int|
                0 <= k < runs.len() && (#[trigger] runs[k]).0 <= i < runs[k].0 + runs[k].1;
            assert(k >= 1);
            assert(rest[k - 1] == runs[k]);
            assert(in_some_run(rest, i));
        }
    }
}

/// Any sequence of run allocations on an all-free table, followed by
/// releases of the same runs -- in any order, `back` listing the same
/// covered bits as `runs` -- returns the table to its all-free state.
pub proof fn lemma_sequence_round_trip(occ0: Seq<bool>, runs: Seq<(int, int)>, back: Seq<(int, int)>)
    requires
        forall|i: int| 0 <= i < occ0.len() ==> !occ0[i],
        forall|i: int| #[trigger] in_some_run(back, i) == in_some_run(runs, i),
    ensures
        mark_all(mark_all(occ0, runs, true), back, false) == occ0,
{
    let mid = mark_all(occ0, runs, true);
    let fin = mark_all(mid, back, false);
    lemma_mark_all_len(occ0, runs, true);
    lemma_mark_all_len(mid, back, false);
    assert forall|i: int| 0 <= i < occ0.len() implies fin[i] == occ0[i] by {
        lemma_mark_all_at(occ0, runs, true, i);
        lemma_mark_all_at(mid, back, false, i);
        assert(!occ0[i]);
        assert(in_some_run(back, i) == in_some_run(runs, i));
    }
    assert(fin =~= occ0);
}

/// Two successive allocations with no release in between return disjoint
/// runs: the second run is free in the state where the first was already
/// marked occupied, so the two cannot share a unit.
pub proof fn lemma_successive_allocs_disjoint(
    occ1: Seq<bool>,
    occ2: Seq<bool>,
    logical: int,
    s1: int,
    a: int,
    s2: int,
    b: int,
)
    requires
        logical <= occ1.len(),
        occ2.len() == occ1.len(),
        free_run(occ1, logical, s1, a),
        forall|i: int| 0 <= i < occ2.len() ==> (#[trigger] occ2[i]) == (occ1[i] || s1 <= i < s1
            + a),
        free_run(occ2, logical, s2, b),
    ensures
        a > 0 && b > 0 ==> s1 + a <= s2 || s2 + b <= s1,
{
    if a > 0 && b > 0 && s1 + a > s2 && s2 + b > s1 {
        let m = if s1 >= s2 {
            s1
        } else {
            s2
        };
        assert(s1 <= m < s1 + a);
        assert(s2 <= m < s2 + b);
        assert(!occ2[m]);
        assert(occ2[m] == (occ1[m] || s1 <= m < s1 + a));
    }
}

/// A request for more units than the logical capacity holds is never
/// satisfied: no free run of that length fits.
pub proof fn lemma_no_fit_beyond_capacity(occ: Seq<bool>, logical: int, n: int)
    requires
        n > logical,
    ensures
        !has_fit(occ, logical, n),
{
    if has_fit(occ, logical, n) {
        let s = choose|s: int| free_run(occ, logical, s, n);
        assert(s + n <= logical);
    }
}

} // verus!
