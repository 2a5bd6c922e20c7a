//! Exact travelling-salesman solver: the Held-Karp dynamic program over
//! subsets of cities encoded as bitmasks, with back-pointer reconstruction
//! of the optimal visiting order.

use vstd::prelude::*;
use crate::matrix::DistanceMatrix;

verus! {

/// Sentinel cost of a dynamic-programming state that no path reaches.
pub const UNREACHABLE_COST: u64 = u64::MAX;

/// Whether bit `l` of mask `s` is set: city `l` belongs to the subset `s`
/// stands for. Bits at or above the mask width are never set.
pub open spec fn in_mask(s: u64, l: u64) -> bool {
    l < 64 && s & (1u64 << l) != 0
}

/// The dynamic program stores a state for subset `s` and last city `l`
/// exactly when `s` holds city 0 and city `l`, and `l` is city 0 only in
/// the base state whose subset is {0}.
pub open spec fn valid_state(n: int, s: u64, l: int) -> bool {
    &&& 0 <= l < n
    &&& in_mask(s, 0)
    &&& in_mask(s, l as u64)
    &&& (l == 0 ==> s == 1)
}

/// Flat row-major index of the cell for subset `s` and last city `l`.
pub open spec fn idx(n: int, s: int, l: int) -> int {
    s * n + l
}

/// Total cost of the edges between consecutive cities of `p`.
pub open spec fn path_cost(m: DistanceMatrix, p: Seq<u16>) -> int
    decreases p.len(),
{
    if p.len() < 2 {
        0
    } else {
        m.spec_dist(p[0] as int, p[1] as int) + path_cost(m, p.drop_first())
    }
}

/// A closed tour over `n` cities: it starts and ends at city 0 and visits
/// every other city exactly once in between.
pub open spec fn is_tour(p: Seq<u16>, n: int) -> bool {
    &&& p.len() == n + 1
    &&& p[0] == 0
    &&& p[n] == 0
    &&& (forall|i: int| 1 <= i < n ==> (#[trigger] p[i]) as int > 0 && (p[i] as int) < n)
    &&& (forall|i: int, j: int| 1 <= i < n && 1 <= j < n && i != j ==> p[i] != p[j])
    &&& (forall|c: u16| 0 < c && (c as int) < n ==> #[trigger] p.contains(c))
}

/// A simple path for the state (`s`, `l`): it starts at city 0, ends at
/// city `l`, repeats no city, and visits exactly the cities in `s`.
pub open spec fn valid_path(q: Seq<u16>, s: u64, l: int, n: int) -> bool {
    &&& q.len() >= 1
    &&& q[0] == 0
    &&& q[q.len() - 1] as int == l
    &&& q.no_duplicates()
    &&& (forall|i: int| 0 <= i < q.len() ==> ((#[trigger] q[i]) as int) < n)
    &&& (forall|c: u16| #[trigger] in_mask(s, c as u64) <==> ((c as int) < n && q.contains(c)))
}

/// Number of set bits of `s` below position `w`.
pub open spec fn pop_below(s: u64, w: u64) -> nat
    decreases w,
{
    if w == 0 {
        0
    } else {
        pop_below(s, (w - 1) as u64) + if in_mask(s, (w - 1) as u64) {
            1nat
        } else {
            0nat
        }
    }
}

/// Removing a set bit turns it off, leaves every other bit alone, and
/// strictly decreases the mask.
proof fn lemma_toggle_off(s: u64, l: u64)
    by (bit_vector)
    requires
        l < 64,
        s & (1u64 << l) != 0,
    ensures
        (s ^ (1u64 << l)) < s,
        (s ^ (1u64 << l)) == s - (1u64 << l),
        !in_mask(s ^ (1u64 << l), l),
{
}

/// Toggling bit `l` leaves any other bit `c` unchanged.
proof fn lemma_toggle_other(s: u64, l: u64, c: u64)
    by (bit_vector)
    requires
        l < 64,
        c < 64,
        c != l,
    ensures
        in_mask(s ^ (1u64 << l), c) == in_mask(s, c),
{
}

/// The full mask over `n` cities holds exactly the cities below `n`.
proof fn lemma_full_mask(n: u64, c: u64)
    by (bit_vector)
    requires
        0 < n < 64,
    ensures
        in_mask(((1u64 << n) - 1) as u64, c) == (c < n),
{
}

/// The mask {0} holds city 0 alone.
proof fn lemma_mask_one(c: u64)
    by (bit_vector)
    ensures
        in_mask(1u64, c) == (c == 0),
{
}

/// The empty mask holds no city.
proof fn lemma_mask_zero(c: u64)
    by (bit_vector)
    ensures
        !in_mask(0u64, c),
{
}

/// A mask whose bits from `w` up are clear lies below `2^w`.
proof fn lemma_no_high_bits(s: u64, w: u64)
    requires
        1 <= w <= 63,
        forall|c: u64| w <= c < 64 ==> !in_mask(s, c),
    ensures
        s < (1u64 << w),
    decreases 64 - w,
{
    if w == 63 {
        assert(!in_mask(s, 63));
        assert(s < (1u64 << 63)) by (bit_vector)
            requires
                !(63u64 < 64 && s & (1u64 << 63u64) != 0),
        ;
    } else {
        lemma_no_high_bits(s, (w + 1) as u64);
        assert(!in_mask(s, w));
        assert(s < (1u64 << w)) by (bit_vector)
            requires
                s < (1u64 << ((w + 1) as u64)),
                !(w < 64 && s & (1u64 << w) != 0),
                1 <= w <= 62,
        ;
    }
}

/// A mask below `2^n` that holds city 0 and is not {0} holds some city in
/// `[1, n)` as well.
proof fn lemma_exists_extra_bit(s: u64, n: u64)
    requires
        1 <= n <= 63,
        s < (1u64 << n),
        in_mask(s, 0),
        s != 1,
    ensures
        exists|j: u64| 1 <= j < n && in_mask(s, j),
    decreases n,
{
    if n == 1 {
        assert(s == 1) by (bit_vector)
            requires
                s < (1u64 << 1u64),
                0u64 < 64 && s & (1u64 << 0u64) != 0,
        ;
    } else if s & (1u64 << ((n - 1) as u64)) != 0 {
        assert(in_mask(s, (n - 1) as u64));
        assert(1 <= ((n - 1) as u64) && ((n - 1) as u64) < n && in_mask(s, (n - 1) as u64));
    } else {
        assert(s < (1u64 << ((n - 1) as u64))) by (bit_vector)
            requires
                s < (1u64 << n),
                s & (1u64 << ((n - 1) as u64)) == 0,
                2 <= n <= 63,
        ;
        lemma_exists_extra_bit(s, (n - 1) as u64);
        let j = choose|j: u64| 1 <= j < (n - 1) as u64 && in_mask(s, j);
        assert(1 <= j < n && in_mask(s, j));
    }
}

/// Toggling a set bit lowers the population count below `w` by one when
/// the bit lies below `w`, and leaves it alone otherwise.
proof fn lemma_pop_toggle(s: u64, l: u64, w: u64)
    requires
        l < 64,
        in_mask(s, l),
        w <= 64,
    ensures
        l < w ==> pop_below(s ^ (1u64 << l), w) + 1 == pop_below(s, w),
        l >= w ==> pop_below(s ^ (1u64 << l), w) == pop_below(s, w),
    decreases w,
{
    if w == 0 {
    } else {
        lemma_pop_toggle(s, l, (w - 1) as u64);
        if (w - 1) as u64 == l {
            lemma_toggle_off(s, l);
        } else {
            lemma_toggle_other(s, l, (w - 1) as u64);
        }
    }
}

/// The full mask over `n` cities has `w` set bits below any `w <= n`.
proof fn lemma_pop_full(n: u64, w: u64)
    requires
        0 < n < 64,
        w <= n,
    ensures
        pop_below(((1u64 << n) - 1) as u64, w) == w,
    decreases w,
{
    if w == 0 {
    } else {
        lemma_pop_full(n, (w - 1) as u64);
        lemma_full_mask(n, (w - 1) as u64);
    }
}

/// The mask {0} has a single set bit below any positive width.
proof fn lemma_pop_one(w: u64)
    requires
        w <= 64,
    ensures
        pop_below(1u64, w) == if w >= 1 {
            1nat
        } else {
            0nat
        },
    decreases w,
{
    if w == 0 {
    } else {
        lemma_pop_one((w - 1) as u64);
        lemma_mask_one((w - 1) as u64);
    }
}

/// The cost of a path is never negative.
proof fn lemma_path_cost_nonneg(m: DistanceMatrix, p: Seq<u16>)
    ensures
        path_cost(m, p) >= 0,
    decreases p.len(),
{
    if p.len() >= 2 {
        lemma_path_cost_nonneg(m, p.drop_first());
    }
}

/// Splitting off the final edge: the cost of a path of two or more cities
/// is the cost of all but its last city plus the final edge.
proof fn lemma_path_cost_last(m: DistanceMatrix, p: Seq<u16>)
    requires
        p.len() >= 2,
    ensures
        path_cost(m, p) == path_cost(m, p.drop_last()) + m.spec_dist(
            p[p.len() - 2] as int,
            p[p.len() - 1] as int,
        ),
    decreases p.len(),
{
    if p.len() == 2 {
        assert(p.drop_last().len() == 1);
        assert(p.drop_first().len() == 1);
        assert(path_cost(m, p.drop_first()) == 0);
        assert(path_cost(m, p.drop_last()) == 0);
        assert(path_cost(m, p) == m.spec_dist(p[0] as int, p[1] as int) + path_cost(
            m,
            p.drop_first(),
        ));
    } else {
        let pt2 = p.drop_first();
        lemma_path_cost_last(m, pt2);
        assert(p.drop_last().drop_first() =~= pt2.drop_last());
        assert(p.drop_last().len() >= 2);
        assert(pt2[pt2.len() - 2] == p[p.len() - 2]);
        assert(pt2[pt2.len() - 1] == p[p.len() - 1]);
        assert(p.drop_last()[0] == p[0]);
        assert(p.drop_last()[1] == p[1]);
        assert(path_cost(m, p) == m.spec_dist(p[0] as int, p[1] as int) + path_cost(m, pt2));
        assert(path_cost(m, p.drop_last()) == m.spec_dist(p[0] as int, p[1] as int) + path_cost(
            m,
            p.drop_last().drop_first(),
        ));
    }
}

/// Cost of the still-unwritten tail of a reconstruction: the edges from
/// `c` back along `rev` (which lists cities in reverse visiting order)
/// and finally home to city 0.
pub open spec fn chain_cost(m: DistanceMatrix, c: u16, rev: Seq<u16>) -> int
    decreases rev.len(),
{
    if rev.len() == 0 {
        m.spec_dist(c as int, 0) as int
    } else {
        m.spec_dist(c as int, rev.last() as int) + chain_cost(m, rev.last(), rev.drop_last())
    }
}

/// A path that realizes a state must be a state the dynamic program
/// stores: it holds city 0 and its last city, and ends at city 0 only in
/// the single-city base case.
proof fn lemma_valid_path_valid_state(q: Seq<u16>, s: u64, l: int, n: int)
    requires
        valid_path(q, s, l, n),
        1 <= n <= 20,
    ensures
        valid_state(n, s, l),
{
    assert(q.contains(0u16)) by {
        assert(q[0] == 0u16);
    }
    let lc = q[q.len() - 1];
    assert(q.contains(lc));
    assert(in_mask(s, lc as u64));
    assert(in_mask(s, 0u64));
    if l == 0 {
        // The path starts and ends at city 0 without repeating a city, so
        // it is the single-city path and its subset is {0}.
        if q.len() > 1 {
            assert(q[0] == q[q.len() - 1]);
            assert(false);
        }
        assert forall|c: u64| 1 <= c < 64 implies !in_mask(s, c) by {
            if in_mask(s, c) {
                let cu = c as u16;
                assert(in_mask(s, cu as u64));
                assert(q.contains(cu));
                let i = choose|i: int| 0 <= i < q.len() && q[i] == cu;
                assert(q[i] == q[0]);
                assert(false);
            }
        }
        lemma_no_high_bits(s, 1);
        assert(s == 1) by (bit_vector)
            requires
                s < (1u64 << 1u64),
                0u64 < 64 && s & (1u64 << 0u64) != 0,
        ;
    }
}

/// A row-major cell index lies inside the table.
proof fn lemma_flat_index(rows: int, cols: int, r: int, c: int)
    by (nonlinear_arith)
    requires
        0 <= r < rows,
        0 <= c < cols,
    ensures
        0 <= r * cols + c < rows * cols,
        r * cols + c < (r + 1) * cols,
        r * cols + c >= r * cols,
{
}

/// Row-major rows do not interleave.
proof fn lemma_row_order(cols: int, r: int, r2: int)
    by (nonlinear_arith)
    requires
        cols >= 1,
        0 <= r < r2,
    ensures
        (r + 1) * cols <= r2 * cols,
{
}

/// Everything the finished dynamic program guarantees of one cell: the
/// sentinel on states it never stores, the exact base cost, a back
/// pointer that reproduces the stored cost from a strictly smaller state,
/// reachability of every stored state, and the stored cost as a lower
/// bound on the cost of every path that realizes the state.
pub open spec fn cell_frozen(
    m: DistanceMatrix,
    n: int,
    dp: Seq<u64>,
    pt: Seq<Option<u16>>,
    s: u64,
    l: int,
) -> bool {
    let k = idx(n, s as int, l);
    let s2 = s ^ (1u64 << (l as u64));
    &&& (!valid_state(n, s, l) ==> dp[k] == UNREACHABLE_COST && pt[k] is None)
    &&& (s == 1 && l == 0 ==> dp[k] == 0 && pt[k] is None)
    &&& (dp[k] < UNREACHABLE_COST ==> dp[k] as int <= (s as int) * (u32::MAX as int))
    &&& (valid_state(n, s, l) ==> dp[k] < UNREACHABLE_COST)
    &&& (pt[k] matches Some(p) ==> {
        &&& valid_state(n, s, l)
        &&& 0 < l < n
        &&& 0 <= (p as int) < n
        &&& (p as int) != l
        &&& in_mask(s2, p as u64)
        &&& valid_state(n, s2, p as int)
        &&& dp[idx(n, s2 as int, p as int)] < UNREACHABLE_COST
        &&& dp[k] as int == dp[idx(n, s2 as int, p as int)] as int + m.spec_dist(p as int, l) as int
        &&& dp[k] < UNREACHABLE_COST
    })
    &&& (dp[k] < UNREACHABLE_COST && !(s == 1 && l == 0) ==> pt[k] is Some)
    &&& (forall|q: Seq<u16>| #[trigger] valid_path(q, s, l, n) ==> path_cost(m, q) >= dp[k] as int)
}

/// A cell the dynamic program has not written yet.
pub open spec fn cell_untouched(
    n: int,
    dp: Seq<u64>,
    pt: Seq<Option<u16>>,
    s: u64,
    l: int,
) -> bool {
    &&& dp[idx(n, s as int, l)] == (if s == 1 && l == 0 {
        0u64
    } else {
        UNREACHABLE_COST
    })
    &&& pt[idx(n, s as int, l)] is None
}

/// All cells strictly before (`s`, `l`) in processing order are frozen.
pub open spec fn frozen_upto(
    m: DistanceMatrix,
    n: int,
    dp: Seq<u64>,
    pt: Seq<Option<u16>>,
    s: u64,
    l: int,
) -> bool {
    forall|s2: u64, l2: int|
        0 <= l2 < n && ((s2 < s) || (s2 == s && l2 < l)) ==> #[trigger] cell_frozen(
            m,
            n,
            dp,
            pt,
            s2,
            l2,
        )
}

/// All cells from (`s`, `l`) on in processing order are still unwritten.
pub open spec fn untouched_from(
    n: int,
    dp: Seq<u64>,
    pt: Seq<Option<u16>>,
    size: u64,
    s: u64,
    l: int,
) -> bool {
    forall|s2: u64, l2: int|
        0 <= l2 < n && s2 < size && ((s2 > s) || (s2 == s && l2 >= l)) ==> #[trigger] cell_untouched(
            n,
            dp,
            pt,
            s2,
            l2,
        )
}

/// The cell being minimized: its tentative cost always comes from a valid
/// recorded predecessor, and it already undercuts every candidate whose
/// predecessor city lies below `pv`.
pub open spec fn cur_cell(
    m: DistanceMatrix,
    n: int,
    dp: Seq<u64>,
    pt: Seq<Option<u16>>,
    s: u64,
    l: int,
    pv: int,
) -> bool {
    let k = idx(n, s as int, l);
    let s2 = s ^ (1u64 << (l as u64));
    &&& (pt[k] is None ==> dp[k] == UNREACHABLE_COST)
    &&& (pt[k] matches Some(p) ==> {
        &&& valid_state(n, s, l)
        &&& 0 < l < n
        &&& 0 <= (p as int) < n
        &&& (p as int) != l
        &&& in_mask(s2, p as u64)
        &&& valid_state(n, s2, p as int)
        &&& dp[idx(n, s2 as int, p as int)] < UNREACHABLE_COST
        &&& dp[k] as int == dp[idx(n, s2 as int, p as int)] as int + m.spec_dist(p as int, l) as int
        &&& dp[k] < UNREACHABLE_COST
        &&& dp[k] as int <= (s as int) * (u32::MAX as int)
    })
    &&& (forall|p2: int|
        0 <= p2 < pv && p2 != l && in_mask(s2, p2 as u64) && dp[idx(n, s2 as int, p2)]
            < UNREACHABLE_COST ==> dp[k] as int <= dp[idx(n, s2 as int, p2)] as int
            + (#[trigger] m.spec_dist(p2, l)) as int)
}

/// A cell for a state the program never stores is frozen as soon as it
/// holds the sentinel and no back pointer.
proof fn lemma_frozen_invalid(
    m: DistanceMatrix,
    n: int,
    dp: Seq<u64>,
    pt: Seq<Option<u16>>,
    s: u64,
    l: int,
)
    requires
        1 <= n <= 20,
        0 <= l < n,
        !valid_state(n, s, l),
        dp[idx(n, s as int, l)] == UNREACHABLE_COST,
        pt[idx(n, s as int, l)] is None,
    ensures
        cell_frozen(m, n, dp, pt, s, l),
{
    assert(!(s == 1 && l == 0)) by {
        if s == 1 && l == 0 {
            lemma_mask_one(0);
        }
    }
    assert forall|q: Seq<u16>| #[trigger] valid_path(q, s, l, n) implies path_cost(m, q) >= dp[idx(
        n,
        s as int,
        l,
    )] as int by {
        lemma_valid_path_valid_state(q, s, l, n);
    }
}

/// The base cell ({0}, 0) is frozen once it holds cost zero.
proof fn lemma_frozen_base(
    m: DistanceMatrix,
    n: int,
    dp: Seq<u64>,
    pt: Seq<Option<u16>>,
)
    requires
        1 <= n <= 20,
        dp[idx(n, 1, 0)] == 0,
        pt[idx(n, 1, 0)] is None,
    ensures
        cell_frozen(m, n, dp, pt, 1u64, 0),
{
    lemma_mask_one(0);
    assert(valid_state(n, 1u64, 0));
    assert forall|q: Seq<u16>| #[trigger] valid_path(q, 1u64, 0, n) implies path_cost(m, q) >= dp[idx(
        n,
        1,
        0,
    )] as int by {
        lemma_path_cost_nonneg(m, q);
    }
}

/// A mask below `2^n` with `n` at most 20 lies below `2^20`.
proof fn lemma_pow_cap(s: u64, nb: u64)
    by (bit_vector)
    requires
        nb <= 20,
        s < (1u64 << nb),
    ensures
        s <= 0x100000,
{
}

/// Once the cell for (`s`, `l`) undercuts every candidate predecessor,
/// its cost bounds the cost of every path that realizes the state: such a
/// path must hand over to some predecessor state, whose own frozen cell
/// already bounds the path's prefix.
proof fn lemma_lower_step(
    m: DistanceMatrix,
    n: int,
    dp: Seq<u64>,
    pt: Seq<Option<u16>>,
    s: u64,
    l: int,
)
    requires
        2 <= n <= 20,
        valid_state(n, s, l),
        l != 0,
        frozen_upto(m, n, dp, pt, s, 0),
        cur_cell(m, n, dp, pt, s, l, n),
    ensures
        forall|q: Seq<u16>| #[trigger] valid_path(q, s, l, n) ==> path_cost(m, q) >= dp[idx(
            n,
            s as int,
            l,
        )] as int,
{
    let k = idx(n, s as int, l);
    let s2 = s ^ (1u64 << (l as u64));
    lemma_toggle_off(s, l as u64);
    assert forall|q: Seq<u16>| #[trigger] valid_path(q, s, l, n) implies path_cost(m, q) >= dp[k] as int by {
        let len = q.len() as int;
        assert(q.contains(0u16)) by {
            assert(q[0] == 0u16);
        }
        if len == 1 {
            assert(q[0] as int == l);
            assert(false);
        }
        let p = q[len - 2];
        let q2 = q.drop_last();
        assert(q2.len() == len - 1);
        // The prefix is duplicate-free and keeps its entries.
        assert(q2.no_duplicates()) by {
            assert(forall|i: int| 0 <= i < len - 1 ==> q2[i] == q[i]);
        }
        // The prefix's last city differs from `l`.
        assert(q[len - 2] != q[len - 1]);
        assert((p as int) != l);
        // The prefix realizes the predecessor state (s2, p).
        assert forall|c: u16| #[trigger] in_mask(s2, c as u64) <==> ((c as int) < n
            && q2.contains(c)) by {
            if (c as int) == l {
                assert(!in_mask(s2, c as u64));
                if q2.contains(c) {
                    let i = choose|i: int| 0 <= i < q2.len() && q2[i] == c;
                    assert(q[i] == q[len - 1]);
                    assert(false);
                }
            } else if (c as u64) < 64 {
                lemma_toggle_other(s, l as u64, c as u64);
                assert(in_mask(s2, c as u64) == in_mask(s, c as u64));
                if in_mask(s, c as u64) {
                    let i = choose|i: int| 0 <= i < q.len() && q[i] == c;
                    assert(i != len - 1);
                    assert(q2[i] == c);
                    assert(q2.contains(c));
                }
                if q2.contains(c) {
                    let i = choose|i: int| 0 <= i < q2.len() && q2[i] == c;
                    assert(q[i] == c);
                    assert(q.contains(c));
                }
            } else {
                assert(!in_mask(s2, c as u64));
                if q2.contains(c) {
                    let i = choose|i: int| 0 <= i < q2.len() && q2[i] == c;
                    assert((q[i] as int) < n);
                    assert(false);
                }
            }
        }
        assert(q2[q2.len() - 1] == p);
        assert(valid_path(q2, s2, p as int, n));
        lemma_valid_path_valid_state(q2, s2, p as int, n);
        assert(cell_frozen(m, n, dp, pt, s2, p as int));
        let k2 = idx(n, s2 as int, p as int);
        assert(dp[k2] < UNREACHABLE_COST);
        assert(path_cost(m, q2) >= dp[k2] as int);
        assert(in_mask(s2, p as u64)) by {
            assert(q2.contains(p)) by {
                assert(q2[q2.len() - 1] == p);
            }
        }
        assert(dp[k] as int <= dp[k2] as int + (m.spec_dist(p as int, l)) as int);
        lemma_path_cost_last(m, q);
        assert(path_cost(m, q) == path_cost(m, q2) + m.spec_dist(p as int, l) as int);
    }
}

/// After the candidate scan for a valid state finishes, its cell is
/// frozen: some finite candidate always exists, so the state is reachable
/// and its cost, back pointer and lower bound are all in place.
proof fn lemma_freeze_cell(
    m: DistanceMatrix,
    n: int,
    dp: Seq<u64>,
    pt: Seq<Option<u16>>,
    s: u64,
    l: int,
    size: u64,
)
    requires
        2 <= n <= 20,
        size == (1u64 << (n as u64)),
        1 < s < size,
        valid_state(n, s, l),
        l != 0,
        frozen_upto(m, n, dp, pt, s, 0),
        cur_cell(m, n, dp, pt, s, l, n),
    ensures
        cell_frozen(m, n, dp, pt, s, l),
{
    let k = idx(n, s as int, l);
    let s2 = s ^ (1u64 << (l as u64));
    lemma_toggle_off(s, l as u64);
    lemma_toggle_other(s, l as u64, 0);
    assert(in_mask(s2, 0));
    // Some candidate predecessor has a finite cost, so the scan found one.
    if s2 == 1 {
        assert(cell_frozen(m, n, dp, pt, 1u64, 0));
        lemma_mask_one(0);
        assert(dp[idx(n, 1, 0)] == 0);
        assert(dp[k] as int <= 0 + (m.spec_dist(0, l)) as int);
    } else {
        assert(s2 < size);
        lemma_exists_extra_bit(s2, n as u64);
        let j = choose|j: u64| 1 <= j < (n as u64) && in_mask(s2, j);
        assert(valid_state(n, s2, j as int));
        assert(cell_frozen(m, n, dp, pt, s2, j as int));
        let kj = idx(n, s2 as int, j as int);
        assert(dp[kj] < UNREACHABLE_COST);
        assert(dp[kj] as int <= (s2 as int) * (u32::MAX as int));
        assert((j as int) != l) by {
            assert(!in_mask(s2, l as u64));
        }
        assert(dp[k] as int <= dp[kj] as int + (m.spec_dist(j as int, l)) as int);
        assert((s2 as int) * (u32::MAX as int) + (u32::MAX as int) <= (s as int) * (u32::MAX
            as int)) by (nonlinear_arith)
            requires
                (s2 as int) < (s as int),
        ;
    }
    lemma_pow_cap(s, n as u64);
    assert((s as int) * (u32::MAX as int) < UNREACHABLE_COST as int) by (nonlinear_arith)
        requires
            (s as int) <= 0x100000,
    ;
    assert(dp[k] < UNREACHABLE_COST);
    assert(pt[k] is Some);
    lemma_lower_step(m, n, dp, pt, s, l);
}

/// Bit 0 of a mask is its lowest-order bit.
proof fn lemma_bit0(s: u64)
    by (bit_vector)
    ensures
        in_mask(s, 0) == (s & 1u64 != 0),
{
}

/// A frozen cell stays frozen when a single cell at or after (`sw`,
/// `lw`), strictly later in processing order, is overwritten.
proof fn lemma_frozen_frame_one(
    m: DistanceMatrix,
    n: int,
    dp0: Seq<u64>,
    pt0: Seq<Option<u16>>,
    dp1: Seq<u64>,
    pt1: Seq<Option<u16>>,
    sx: u64,
    lx: int,
    sw: u64,
    lw: int,
)
    requires
        1 <= n,
        0 <= lx < n,
        0 <= lw < n,
        cell_frozen(m, n, dp0, pt0, sx, lx),
        sx < sw || (sx == sw && lx < lw),
        forall|k2: int|
            0 <= k2 < idx(n, sw as int, lw) ==> #[trigger] dp1[k2] == dp0[k2] && pt1[k2]
                == pt0[k2],
    ensures
        cell_frozen(m, n, dp1, pt1, sx, lx),
{
    let kw = idx(n, sw as int, lw);
    let k = idx(n, sx as int, lx);
    lemma_flat_index((sx as int) + 1, n, sx as int, lx);
    if sx < sw {
        lemma_row_order(n, sx as int, sw as int);
        assert(kw >= (sw as int) * n);
    }
    assert(k < kw);
    assert(dp1[k] == dp0[k] && pt1[k] == pt0[k]);
    if pt0[k] is Some {
        let p = pt0[k]->Some_0;
        let s2 = sx ^ (1u64 << (lx as u64));
        lemma_toggle_off(sx, lx as u64);
        let k2 = idx(n, s2 as int, p as int);
        lemma_flat_index((s2 as int) + 1, n, s2 as int, p as int);
        lemma_row_order(n, s2 as int, sx as int);
        if sx < sw {
            lemma_row_order(n, sx as int, sw as int);
        }
        assert(k2 < (sx as int) * n);
        assert(k2 < kw);
        assert(dp1[k2] == dp0[k2]);
    }
    assert forall|q: Seq<u16>| #[trigger] valid_path(q, sx, lx, n) implies path_cost(m, q) >= dp1[k] as int by {
        assert(path_cost(m, q) >= dp0[k] as int);
    }
}

/// A vector of `len` copies of the unreachable sentinel.
fn filled_costs(len: usize) -> (v: Vec<u64>)
    ensures
        v@.len() == len,
        forall|i: int| 0 <= i < len ==> v@[i] == UNREACHABLE_COST,
{
    let mut v: Vec<u64> = Vec::new();
    let mut i: usize = 0;
    while i < len
        invariant
            i <= len,
            v@.len() == i,
            forall|t: int| 0 <= t < i ==> v@[t] == UNREACHABLE_COST,
        decreases len - i,
    {
        v.push(UNREACHABLE_COST);
        i = i + 1;
    }
    v
}

/// A vector of `len` empty back pointers.
fn filled_parents(len: usize) -> (v: Vec<Option<u16>>)
    ensures
        v@.len() == len,
        forall|i: int| 0 <= i < len ==> v@[i] is None,
    {
    let mut v: Vec<Option<u16>> = Vec::new();
    let mut i: usize = 0;
    while i < len
        invariant
            i <= len,
            v@.len() == i,
            forall|t: int| 0 <= t < i ==> v@[t] is None,
        decreases len - i,
    {
        v.push(None);
        i = i + 1;
    }
    v
}

/// Runs the forward Held-Karp pass over every subset in increasing mask
/// order and returns the cost and back-pointer tables with every cell
/// frozen.
#[verifier::loop_isolation(false)]
#[verifier::rlimit(60)]
fn solve_tables(matrix: &DistanceMatrix, n: u16) -> (r: (Vec<u64>, Vec<Option<u16>>))
    requires
        matrix.wf(),
        matrix.n == n,
        2 <= n <= 20,
    ensures
        r.0@.len() == ((1u64 << (n as u64)) as int) * (n as int),
        r.1@.len() == ((1u64 << (n as u64)) as int) * (n as int),
        frozen_upto(*matrix, n as int, r.0@, r.1@, 1u64 << (n as u64), 0),
{
    let nn: usize = n as usize;
    let nb: u64 = n as u64;
    let size: u64 = 1u64 << nb;
    proof {
        assert(4 <= size && size <= 0x100000) by (bit_vector)
            requires
                2 <= nb <= 20,
                size == 1u64 << nb,
        ;
        assert((size as int) * (nn as int) <= 0x100000 * 20) by (nonlinear_arith)
            requires
                size as int <= 0x100000,
                nn as int <= 20,
                size as int >= 0,
                nn as int >= 0,
        ;
    }
    let total: usize = (size as usize) * nn;
    let mut dp = filled_costs(total);
    let mut pt = filled_parents(total);
    proof {
        assert(idx(n as int, 1, 0) == n as int);
        assert(nn < total) by (nonlinear_arith)
            requires
                total == (size as int) * (nn as int),
                size as int >= 4,
                nn as int >= 2,
        ;
    }
    dp[nn] = 0;
    proof {
        // Row 0 is frozen: it lacks city 0, so no state lives there.
        assert forall|s2: u64, l2: int|
            0 <= l2 < n as int && ((s2 < 1) || (s2 == 1 && l2 < 0)) implies cell_frozen(
            *matrix,
            n as int,
            dp@,
            pt@,
            s2,
            l2,
        ) by {
            lemma_mask_zero(0);
            assert(idx(n as int, 0, l2) == l2);
            assert(dp@[l2] == UNREACHABLE_COST);
            lemma_frozen_invalid(*matrix, n as int, dp@, pt@, 0u64, l2);
        }
        // Everything from row 1 on is untouched (the base cell holds 0).
        assert forall|s2: u64, l2: int|
            0 <= l2 < n as int && s2 < size && ((s2 > 1) || (s2 == 1 && l2 >= 0)) implies cell_untouched(
            n as int,
            dp@,
            pt@,
            s2,
            l2,
        ) by {
            let k2 = idx(n as int, s2 as int, l2);
            lemma_flat_index(size as int, n as int, s2 as int, l2);
            if s2 == 1 && l2 == 0 {
            } else {
                if s2 == 1 {
                    assert(k2 != n as int);
                } else {
                    lemma_row_order(n as int, 1, s2 as int);
                    assert(k2 >= (s2 as int) * (n as int));
                    assert(k2 != n as int);
                }
            }
        }
    }
    let mut s: u64 = 1;
    while s < size
        invariant
            dp@.len() == total,
            pt@.len() == total,
            1 <= s <= size,
            frozen_upto(*matrix, n as int, dp@, pt@, s, 0),
            untouched_from(n as int, dp@, pt@, size, s, 0),
        decreases size - s,
    {
        if s == 1 {
            proof {
                assert(cell_untouched(n as int, dp@, pt@, 1u64, 0));
                lemma_frozen_base(*matrix, n as int, dp@, pt@);
                assert forall|s2: u64, l2: int|
                    0 <= l2 < n as int && ((s2 < s + 1) || (s2 == s + 1 && l2 < 0)) implies cell_frozen(
                    *matrix,
                    n as int,
                    dp@,
                    pt@,
                    s2,
                    l2,
                ) by {
                    if s2 < 1 {
                        assert(cell_frozen(*matrix, n as int, dp@, pt@, s2, l2));
                    } else if l2 == 0 {
                    } else {
                        lemma_mask_one(l2 as u64);
                        assert(cell_untouched(n as int, dp@, pt@, 1u64, l2));
                        lemma_frozen_invalid(*matrix, n as int, dp@, pt@, 1u64, l2);
                    }
                }
            }
        } else if s & 1 == 0 {
            proof {
                lemma_bit0(s);
                assert forall|s2: u64, l2: int|
                    0 <= l2 < n as int && ((s2 < s + 1) || (s2 == s + 1 && l2 < 0)) implies cell_frozen(
                    *matrix,
                    n as int,
                    dp@,
                    pt@,
                    s2,
                    l2,
                ) by {
                    if s2 < s {
                        assert(cell_frozen(*matrix, n as int, dp@, pt@, s2, l2));
                    } else {
                        assert(cell_untouched(n as int, dp@, pt@, s, l2));
                        lemma_frozen_invalid(*matrix, n as int, dp@, pt@, s, l2);
                    }
                }
            }
        } else {
            let s_full: u64 = s;
            let mut l: usize = 0;
            while l < nn
                invariant
                    dp@.len() == total,
                    pt@.len() == total,
                    l <= nn,
                    1 < s < size,
                    s & 1u64 != 0,
                    frozen_upto(*matrix, n as int, dp@, pt@, s, l as int),
                    untouched_from(n as int, dp@, pt@, size, s, l as int),
                decreases nn - l,
            {
                let lbit: u64 = 1u64 << (l as u64);
                if l != 0 && (s & lbit) != 0 {
                    proof {
                        lemma_bit0(s);
                        assert(in_mask(s, l as u64));
                        assert(valid_state(n as int, s, l as int));
                    }
                    let s2: u64 = s ^ lbit;
                    proof {
                        lemma_flat_index(size as int, n as int, s as int, l as int);
                        assert((s as int) * (n as int) + (l as int) < total as int);
                        lemma_toggle_off(s, l as u64);
                    }
                    let k: usize = (s as usize) * nn + l;
                    proof {
                        assert(cell_untouched(n as int, dp@, pt@, s, l as int));
                        assert(cur_cell(*matrix, n as int, dp@, pt@, s, l as int, 0));
                    }
                    let mut p: usize = 0;
                    while p < nn
                        invariant
                            dp@.len() == total,
                            pt@.len() == total,
                            p <= nn,
                            1 < s < size,
                            s & 1u64 != 0,
                            0 < l < nn,
                            lbit == 1u64 << (l as u64),
                            (s & lbit) != 0,
                            s2 == s ^ lbit,
                            k == (s as usize) * nn + l,
                            k < total,
                            frozen_upto(*matrix, n as int, dp@, pt@, s, l as int),
                            untouched_from(n as int, dp@, pt@, size, s, (l + 1) as int),
                            cur_cell(*matrix, n as int, dp@, pt@, s, l as int, p as int),
                        decreases nn - p,
                    {
                        if p != l && (s2 & (1u64 << (p as u64))) != 0 {
                            proof {
                                assert(in_mask(s2, p as u64));
                                lemma_toggle_off(s, l as u64);
                                lemma_flat_index(size as int, n as int, s2 as int, p as int);
                                assert((s2 as int) * (n as int) + (p as int) < total as int);
                            }
                            let kp: usize = (s2 as usize) * nn + p;
                            let dpp = dp[kp];
                            if dpp != UNREACHABLE_COST {
                                let w = matrix.get(p as u16, l as u16);
                                proof {
                                    assert(cell_frozen(*matrix, n as int, dp@, pt@, s2, p as int));
                                    assert(dp@[kp as int] as int <= (s2 as int) * (u32::MAX
                                        as int));
                                    assert(valid_state(n as int, s2, p as int));
                                    lemma_pow_cap(s, nb);
                                    assert((s2 as int) * (u32::MAX as int) + (u32::MAX as int) <= (
                                    s as int) * (u32::MAX as int)) by (nonlinear_arith)
                                        requires
                                            (s2 as int) < (s as int),
                                    ;
                                    assert((s as int) * (u32::MAX as int) < UNREACHABLE_COST
                                        as int) by (nonlinear_arith)
                                        requires
                                            (s as int) <= 0x100000,
                                    ;
                                }
                                let cand = dpp + (w as u64);
                                if cand < dp[k] {
                                    let ghost dp0 = dp@;
                                    let ghost pt0 = pt@;
                                    dp[k] = cand;
                                    pt[k] = Some(p as u16);
                                    proof {
                                        assert(dp@ == dp0.update(k as int, cand));
                                        assert(pt@ == pt0.update(k as int, Some(p as u16)));
                                        assert(k as int == idx(n as int, s as int, l as int));
                                        assert forall|k2: int|
                                            0 <= k2 < idx(n as int, s as int, l as int)
                                                implies #[trigger] dp@[k2] == dp0[k2] && pt@[k2]
                                            == pt0[k2] by {
                                            assert(k2 != k as int);
                                        }
                                        assert forall|sx: u64, lx: int|
                                            0 <= lx < n as int && ((sx < s) || (sx == s && lx < l
                                                as int)) implies cell_frozen(
                                            *matrix,
                                            n as int,
                                            dp@,
                                            pt@,
                                            sx,
                                            lx,
                                        ) by {
                                            assert(cell_frozen(*matrix, n as int, dp0, pt0, sx, lx));
                                            lemma_frozen_frame_one(
                                                *matrix,
                                                n as int,
                                                dp0,
                                                pt0,
                                                dp@,
                                                pt@,
                                                sx,
                                                lx,
                                                s,
                                                l as int,
                                            );
                                        }
                                        assert forall|sx: u64, lx: int|
                                            0 <= lx < n as int && sx < size && ((sx > s) || (sx == s
                                                && lx >= (l + 1) as int)) implies cell_untouched(
                                            n as int,
                                            dp@,
                                            pt@,
                                            sx,
                                            lx,
                                        ) by {
                                            assert(cell_untouched(n as int, dp0, pt0, sx, lx));
                                            let k2 = idx(n as int, sx as int, lx);
                                            lemma_flat_index(size as int, n as int, sx as int, lx);
                                            if sx > s {
                                                lemma_row_order(n as int, s as int, sx as int);
                                                assert(k2 >= (sx as int) * (n as int));
                                                lemma_flat_index(
                                                    (s as int) + 1,
                                                    n as int,
                                                    s as int,
                                                    l as int,
                                                );
                                                assert(k2 != k as int);
                                            } else {
                                                assert(k2 != k as int);
                                            }
                                        }
                                        // The freshly written cell: its cost comes from the
                                        // recorded predecessor and undercuts every candidate
                                        // scanned so far.
                                        assert(dp@[kp as int] == dp0[kp as int]) by {
                                            lemma_flat_index(
                                                (s2 as int) + 1,
                                                n as int,
                                                s2 as int,
                                                p as int,
                                            );
                                            lemma_row_order(n as int, s2 as int, s as int);
                                            assert(kp as int != k as int);
                                        }
                                        assert(in_mask(s2, 0)) by {
                                            lemma_toggle_other(s, l as u64, 0);
                                            lemma_bit0(s);
                                        }
                                        assert forall|p2: int|
                                            0 <= p2 < (p + 1) as int && p2 != l as int && in_mask(
                                                s2,
                                                p2 as u64,
                                            ) && dp@[idx(n as int, s2 as int, p2)]
                                                < UNREACHABLE_COST implies dp@[k as int] as int
                                            <= dp@[idx(n as int, s2 as int, p2)] as int + (
                                        #[trigger] matrix.spec_dist(p2, l as int)) as int by {
                                            lemma_flat_index(
                                                (s2 as int) + 1,
                                                n as int,
                                                s2 as int,
                                                p2,
                                            );
                                            lemma_row_order(n as int, s2 as int, s as int);
                                            assert(idx(n as int, s2 as int, p2) != k as int);
                                            assert(dp@[idx(n as int, s2 as int, p2)] == dp0[idx(
                                                n as int,
                                                s2 as int,
                                                p2,
                                            )]);
                                            if p2 < p as int {
                                                assert(dp0[k as int] as int <= dp0[idx(
                                                    n as int,
                                                    s2 as int,
                                                    p2,
                                                )] as int + (matrix.spec_dist(p2, l as int)) as int);
                                            }
                                        }
                                        assert(cur_cell(
                                            *matrix,
                                            n as int,
                                            dp@,
                                            pt@,
                                            s,
                                            l as int,
                                            (p + 1) as int,
                                        ));
                                    }
                                } else {
                                    proof {
                                        assert(cell_frozen(*matrix, n as int, dp@, pt@, s2, p
                                            as int));
                                        assert(cur_cell(
                                            *matrix,
                                            n as int,
                                            dp@,
                                            pt@,
                                            s,
                                            l as int,
                                            (p + 1) as int,
                                        ));
                                    }
                                }
                            } else {
                                proof {
                                    assert(cur_cell(
                                        *matrix,
                                        n as int,
                                        dp@,
                                        pt@,
                                        s,
                                        l as int,
                                        (p + 1) as int,
                                    ));
                                }
                            }
                        } else {
                            proof {
                                assert forall|p2: int|
                                    0 <= p2 < (p + 1) as int && p2 != l as int && in_mask(
                                        s2,
                                        p2 as u64,
                                    ) && dp@[idx(n as int, s2 as int, p2)]
                                        < UNREACHABLE_COST implies dp@[(k as int)] as int <= dp@[idx(
                                    n as int,
                                    s2 as int,
                                    p2,
                                )] as int + (#[trigger] matrix.spec_dist(p2, l as int)) as int by {
                                    assert(p2 < p as int || p2 == p as int);
                                }
                                assert(cur_cell(
                                    *matrix,
                                    n as int,
                                    dp@,
                                    pt@,
                                    s,
                                    l as int,
                                    (p + 1) as int,
                                ));
                            }
                        }
                        p = p + 1;
                    }
                    proof {
                        lemma_freeze_cell(*matrix, n as int, dp@, pt@, s, l as int, size);
                        assert forall|sx: u64, lx: int|
                            0 <= lx < n as int && ((sx < s) || (sx == s && lx < (l + 1) as int))
                                implies cell_frozen(*matrix, n as int, dp@, pt@, sx, lx) by {
                            if sx == s && lx == l as int {
                            } else {
                                assert(cell_frozen(*matrix, n as int, dp@, pt@, sx, lx));
                            }
                        }
                    }
                } else {
                    proof {
                        assert(cell_untouched(n as int, dp@, pt@, s, l as int));
                        assert(!valid_state(n as int, s, l as int)) by {
                            if l == 0 {
                            } else {
                                assert(!in_mask(s, l as u64));
                            }
                        }
                        lemma_frozen_invalid(*matrix, n as int, dp@, pt@, s, l as int);
                        assert forall|sx: u64, lx: int|
                            0 <= lx < n as int && ((sx < s) || (sx == s && lx < (l + 1) as int))
                                implies cell_frozen(*matrix, n as int, dp@, pt@, sx, lx) by {
                            if sx == s && lx == l as int {
                            } else {
                                assert(cell_frozen(*matrix, n as int, dp@, pt@, sx, lx));
                            }
                        }
                        assert forall|sx: u64, lx: int|
                            0 <= lx < n as int && sx < size && ((sx > s) || (sx == s && lx >= (l + 1)
                                as int)) implies cell_untouched(n as int, dp@, pt@, sx, lx) by {
                            assert(cell_untouched(n as int, dp@, pt@, sx, lx));
                        }
                    }
                }
                l = l + 1;
            }
            proof {
                assert forall|s2: u64, l2: int|
                    0 <= l2 < n as int && ((s2 < s + 1) || (s2 == s + 1 && l2 < 0)) implies cell_frozen(
                    *matrix,
                    n as int,
                    dp@,
                    pt@,
                    s2,
                    l2,
                ) by {
                    assert(cell_frozen(*matrix, n as int, dp@, pt@, s2, l2));
                }
            }
        }
        s = s + 1;
    }
    (dp, pt)
}

/// The mask of all `n` cities.
pub open spec fn full_mask_of(n: int) -> u64 {
    ((1u64 << (n as u64)) - 1) as u64
}

/// Once every cell is frozen and `minc` undercuts every way of closing
/// the tour, `minc` bounds the cost of every tour from below.
proof fn lemma_min_is_optimal(m: DistanceMatrix, n: int, dp: Seq<u64>, pt: Seq<Option<u16>>, minc: u64)
    requires
        2 <= n <= 20,
        frozen_upto(m, n, dp, pt, 1u64 << (n as u64), 0),
        forall|i2: int|
            1 <= i2 < n ==> minc as int <= dp[idx(n, full_mask_of(n) as int, i2)] as int + (
            #[trigger] m.spec_dist(i2, 0)) as int,
    ensures
        forall|p: Seq<u16>| is_tour(p, n) ==> path_cost(m, p) >= minc as int,
{
    let nb = n as u64;
    let full = full_mask_of(n);
    assert(full < (1u64 << nb)) by (bit_vector)
        requires
            2 <= nb <= 20,
            full == ((1u64 << nb) - 1) as u64,
    ;
    assert forall|p: Seq<u16>| is_tour(p, n) implies path_cost(m, p) >= minc as int by {
        let lastv = p[n - 1];
        let q = p.drop_last();
        assert(q.len() == n);
        assert(q[0] == p[0]);
        assert(q[q.len() - 1] == lastv);
        assert(0 < lastv as int && (lastv as int) < n);
        assert(q.no_duplicates()) by {
            assert forall|i: int, j: int|
                0 <= i < q.len() && 0 <= j < q.len() && i != j implies q[i] != q[j] by {
                assert(q[i] == p[i] && q[j] == p[j]);
                if i == 0 {
                    assert(p[j] as int > 0);
                } else if j == 0 {
                    assert(p[i] as int > 0);
                }
            }
        }
        assert forall|c: u16| #[trigger] in_mask(full, c as u64) <==> ((c as int) < n
            && q.contains(c)) by {
            lemma_full_mask(nb, c as u64);
            if (c as int) < n {
                if c == 0 {
                    assert(q[0] == 0u16);
                    assert(q.contains(c));
                } else {
                    assert(p.contains(c));
                    let i = choose|i: int| 0 <= i < p.len() && p[i] == c;
                    assert(i != 0 && i != n);
                    assert(q[i] == c);
                    assert(q.contains(c));
                }
            }
        }
        assert(valid_path(q, full, lastv as int, n));
        assert(cell_frozen(m, n, dp, pt, full, lastv as int));
        let kf = idx(n, full as int, lastv as int);
        assert(path_cost(m, q) >= dp[kf] as int);
        lemma_path_cost_last(m, p);
        assert(p[p.len() - 1] == 0u16);
        assert(path_cost(m, p) == path_cost(m, q) + m.spec_dist(lastv as int, 0) as int);
        assert(minc as int <= dp[kf] as int + m.spec_dist(lastv as int, 0) as int);
    }
}

/// Solves the travelling-salesman instance held in `matrix` exactly, for
/// `n` cities numbered from 0.
///
/// With two or more cities the result is a minimum-cost closed tour: the
/// path starts and ends at city 0, visits every other city exactly once,
/// the reported cost is exactly the summed distance of the path's
/// consecutive edges, and no tour costs less. A single city yields the
/// trivial path `[0]`, no cities at all the empty path, both at cost 0.
#[verifier::loop_isolation(false)]
#[verifier::rlimit(80)]
pub fn held_karp(matrix: &DistanceMatrix, n: u16) -> (r: (u64, Vec<u16>))
    requires
        matrix.wf(),
        matrix.n == n,
        n <= 20,
    ensures
        n == 0 ==> r.0 == 0 && r.1@.len() == 0,
        n == 1 ==> r.0 == 0 && r.1@ == seq![0u16],
        n >= 2 ==> is_tour(r.1@, n as int),
        n >= 2 ==> r.0 as int == path_cost(*matrix, r.1@),
        n >= 2 ==> forall|p: Seq<u16>|
            is_tour(p, n as int) ==> path_cost(*matrix, p) >= r.0 as int,
{
    if n == 0 {
        let v: Vec<u16> = Vec::new();
        return (0, v);
    }
    if n == 1 {
        let mut v: Vec<u16> = Vec::new();
        v.push(0);
        proof {
            assert(v@ =~= seq![0u16]);
        }
        return (0, v);
    }
    let nn: usize = n as usize;
    let nb: u64 = n as u64;
    let size: u64 = 1u64 << nb;
    proof {
        assert(4 <= size && size <= 0x100000) by (bit_vector)
            requires
                2 <= nb <= 20,
                size == 1u64 << nb,
        ;
    }
    let tables = solve_tables(matrix, n);
    let dp = tables.0;
    let pt = tables.1;
    let full: u64 = size - 1;
    proof {
        assert(full == full_mask_of(n as int));
        assert forall|c: u64| in_mask(full, c) == (c < nb) by {
            lemma_full_mask(nb, c);
        }
    }
    // Close the tour: the cheapest full path plus its edge home.
    let mut min_cost: u64 = UNREACHABLE_COST;
    let mut last_city: u16 = 0;
    let mut i: usize = 1;
    while i < nn
        invariant
            1 <= i <= nn,
            i == 1 ==> min_cost == UNREACHABLE_COST,
            i > 1 ==> (0 < last_city as int && (last_city as int) < n as int && min_cost < UNREACHABLE_COST && min_cost
                as int == dp@[idx(n as int, full as int, last_city as int)] as int
                + matrix.spec_dist(last_city as int, 0) as int),
            forall|i2: int|
                1 <= i2 < i as int ==> min_cost as int <= dp@[idx(n as int, full as int, i2)] as int
                    + (#[trigger] matrix.spec_dist(i2, 0)) as int,
        decreases nn - i,
    {
        proof {
            assert(valid_state(n as int, full, i as int));
            assert(cell_frozen(*matrix, n as int, dp@, pt@, full, i as int));
            lemma_flat_index(size as int, n as int, full as int, i as int);
            assert((full as int) * (u32::MAX as int) + (u32::MAX as int) < UNREACHABLE_COST
                as int) by (nonlinear_arith)
                requires
                    (full as int) < 0x100000,
            ;
        }
        let k: usize = (full as usize) * nn + i;
        let dv = dp[k];
        let w = matrix.get(i as u16, 0);
        let cand = dv + (w as u64);
        if cand < min_cost {
            min_cost = cand;
            last_city = i as u16;
        }
        i = i + 1;
    }
    proof {
        lemma_min_is_optimal(*matrix, n as int, dp@, pt@, min_cost);
    }
    // Walk the back pointers from the full subset down to the base state,
    // collecting the visiting order in reverse.
    let mut subset: u64 = full;
    let mut city: u16 = last_city;
    let mut rev: Vec<u16> = Vec::new();
    proof {
        assert(valid_state(n as int, subset, city as int));
        assert(chain_cost(*matrix, city, rev@) == matrix.spec_dist(city as int, 0) as int);
        lemma_pop_full(nb, nb);
    }
    while city != 0
        invariant
            subset <= full,
            valid_state(n as int, subset, city as int),
            dp@[idx(n as int, subset as int, city as int)] < UNREACHABLE_COST,
            dp@[idx(n as int, subset as int, city as int)] as int + chain_cost(
                *matrix,
                city,
                rev@,
            ) == min_cost as int,
            rev@.no_duplicates(),
            forall|c: u16|
                #[trigger] rev@.contains(c) <==> ((c as int) < n as int && !in_mask(
                    subset,
                    c as u64,
                )),
            rev@.len() + pop_below(subset, nb) == n as nat,
        decreases subset,
    {
        proof {
            assert(cell_frozen(*matrix, n as int, dp@, pt@, subset, city as int));
            lemma_flat_index(size as int, n as int, subset as int, city as int);
        }
        let k: usize = (subset as usize) * nn + (city as usize);
        match pt[k] {
            Some(pv) => {
                let ghost subset0 = subset;
                let ghost city0 = city;
                let ghost rev0 = rev@;
                proof {
                    assert(forall|t: int| 0 <= t < rev0.len() ==> rev0[t] != city0) by {
                        assert(!rev0.contains(city0));
                    }
                }
                rev.push(city);
                subset = subset ^ (1u64 << (city as u64));
                city = pv;
                proof {
                    assert(rev@ == rev0.push(city0));
                    assert(rev@.drop_last() =~= rev0);
                    assert(rev@.last() == city0);
                    lemma_toggle_off(subset0, city0 as u64);
                    assert(chain_cost(*matrix, city, rev@) == matrix.spec_dist(
                        city as int,
                        city0 as int,
                    ) as int + chain_cost(*matrix, city0, rev0));
                    lemma_pop_toggle(subset0, city0 as u64, nb);
                    assert(rev@.no_duplicates()) by {
                        assert(forall|t: int| 0 <= t < rev0.len() ==> rev@[t] == rev0[t]);
                    }
                    assert forall|c: u16| #[trigger] rev@.contains(c) <==> ((c as int) < n as int
                        && !in_mask(subset, c as u64)) by {
                        if c == city0 {
                            assert(rev@[rev@.len() - 1] == city0);
                            assert(rev@.contains(c));
                        } else {
                            if (c as u64) < 64 {
                                lemma_toggle_other(subset0, city0 as u64, c as u64);
                            }
                            assert(rev@.contains(c) == rev0.contains(c)) by {
                                if rev0.contains(c) {
                                    let t = choose|t: int| 0 <= t < rev0.len() && rev0[t] == c;
                                    assert(rev@[t] == c);
                                }
                                if rev@.contains(c) {
                                    let t = choose|t: int| 0 <= t < rev@.len() && rev@[t] == c;
                                    assert(t < rev0.len());
                                    assert(rev0[t] == c);
                                }
                            }
                        }
                    }
                }
            },
            None => {
                proof {
                    assert(false);
                }
            },
        }
    }
    proof {
        assert(subset == 1);
        assert(cell_frozen(*matrix, n as int, dp@, pt@, 1u64, 0));
        assert(dp@[idx(n as int, 1, 0)] == 0);
        assert(chain_cost(*matrix, 0u16, rev@) == min_cost as int);
        lemma_pop_one(nb);
        assert(rev@.len() == n as nat - 1);
        assert forall|c: u16| #[trigger] rev@.contains(c) <==> (0 < c && (c as int) < n as int) by {
            lemma_mask_one(c as u64);
        }
    }
    // Replay the collected order forwards between the two endpoints.
    let mut path: Vec<u16> = Vec::new();
    path.push(0);
    proof {
        assert(path@.last() == 0u16);
        assert(path_cost(*matrix, path@) == 0);
        assert(forall|c: u16| path@.contains(c) ==> c == 0u16) by {
            assert forall|c: u16| #[trigger] path@.contains(c) implies c == 0u16 by {
                let t = choose|t: int| 0 <= t < path@.len() && path@[t] == c;
                assert(t == 0);
            }
        }
    }
    while rev.len() > 0
        invariant
            1 <= path@.len(),
            path@.len() + rev@.len() == n as int,
            path@[0] == 0,
            path_cost(*matrix, path@) + chain_cost(*matrix, path@.last(), rev@) == min_cost as int,
            path@.no_duplicates(),
            rev@.no_duplicates(),
            forall|c: u16| #[trigger] rev@.contains(c) ==> (0 < c && (c as int) < n as int),
            forall|t: int|
                1 <= t < path@.len() ==> 0 < (#[trigger] path@[t]) as int && (path@[t] as int) < n as int,
            forall|c: u16|
                0 < c && (c as int) < n as int ==> (#[trigger] path@.contains(c) || rev@.contains(
                    c,
                )),
            forall|c: u16| !(#[trigger] path@.contains(c) && rev@.contains(c)),
        decreases rev@.len(),
    {
        let ghost path0 = path@;
        let ghost rev0 = rev@;
        let x: u16;
        match rev.pop() {
            Some(v) => {
                x = v;
            },
            None => {
                proof {
                    assert(false);
                }
                x = 0;
            },
        }
        proof {
            assert(x == rev0.last());
            assert(rev@ == rev0.drop_last());
            assert(rev0.contains(x)) by {
                assert(rev0[rev0.len() - 1] == x);
            }
            assert(!path0.contains(x));
            assert(forall|t: int| 0 <= t < path0.len() ==> path0[t] != x) by {
                assert(!path0.contains(x));
            }
        }
        path.push(x);
        proof {
            assert(path@ == path0.push(x));
            assert(path@.drop_last() =~= path0);
            assert(path@.last() == x);
            lemma_path_cost_last(*matrix, path@);
            assert(chain_cost(*matrix, path0.last(), rev0) == matrix.spec_dist(
                path0.last() as int,
                x as int,
            ) as int + chain_cost(*matrix, x, rev@));
            assert(path@[path@.len() - 2] == path0.last());
            assert(path@.no_duplicates()) by {
                assert(forall|t: int| 0 <= t < path0.len() ==> path@[t] == path0[t]);
            }
            assert forall|c: u16| #[trigger] rev@.contains(c) implies (0 < c && (c as int) < n
                as int) by {
                let t = choose|t: int| 0 <= t < rev@.len() && rev@[t] == c;
                assert(rev0[t] == c);
                assert(rev0.contains(c));
            }
            assert forall|c: u16|
                0 < c && (c as int) < n as int implies (#[trigger] path@.contains(c)
                || rev@.contains(c)) by {
                if path0.contains(c) {
                    let t = choose|t: int| 0 <= t < path0.len() && path0[t] == c;
                    assert(path@[t] == c);
                } else {
                    assert(rev0.contains(c));
                    let t = choose|t: int| 0 <= t < rev0.len() && rev0[t] == c;
                    if t < rev0.len() - 1 {
                        assert(rev@[t] == c);
                    } else {
                        assert(c == x);
                        assert(path@[path@.len() - 1] == c);
                    }
                }
            }
            assert forall|c: u16| !(#[trigger] path@.contains(c) && rev@.contains(c)) by {
                if path@.contains(c) && rev@.contains(c) {
                    let t = choose|t: int| 0 <= t < rev@.len() && rev@[t] == c;
                    assert(rev0[t] == c);
                    assert(rev0.contains(c));
                    let t2 = choose|t2: int| 0 <= t2 < path@.len() && path@[t2] == c;
                    if t2 < path0.len() {
                        assert(path0[t2] == c);
                        assert(path0.contains(c));
                        assert(false);
                    } else {
                        assert(c == x);
                        assert(rev0[t] == x && t < rev0.len() - 1);
                        assert(false);
                    }
                }
            }
            assert forall|t: int| 1 <= t < path@.len() implies 0 < (#[trigger] path@[t]) as int && (
            path@[t] as int) < n as int by {
                if t < path0.len() {
                } else {
                    assert(path@[t] == x);
                }
            }
        }
    }
    let ghost pre = path@;
    proof {
        assert(pre.len() == n as int);
        assert(chain_cost(*matrix, pre.last(), rev@) == matrix.spec_dist(
            pre.last() as int,
            0,
        ) as int);
    }
    path.push(0);
    let r = (min_cost, path);
    proof {
        assert(r.1@ == pre.push(0u16));
        assert(r.1@.drop_last() =~= pre);
        assert(r.1@.last() == 0u16);
        lemma_path_cost_last(*matrix, r.1@);
        assert(r.1@[r.1@.len() - 2] == pre.last());
        assert(path_cost(*matrix, r.1@) == min_cost as int);
        assert(r.1@.len() == n as int + 1);
        assert(r.1@[0] == 0);
        assert(r.1@[n as int] == 0);
        assert forall|t: int| 1 <= t < n as int implies (#[trigger] r.1@[t]) as int > 0 && (r.1@[t]
            as int) < n as int by {
            assert(r.1@[t] == pre[t]);
        }
        assert forall|t: int, j: int|
            1 <= t < n as int && 1 <= j < n as int && t != j implies r.1@[t] != r.1@[j] by {
            assert(r.1@[t] == pre[t] && r.1@[j] == pre[j]);
        }
        assert forall|c: u16| 0 < c && (c as int) < n as int implies #[trigger] r.1@.contains(
            c,
        ) by {
            assert(pre.contains(c));
            let t = choose|t: int| 0 <= t < pre.len() && pre[t] == c;
            assert(r.1@[t] == c);
        }
        assert(is_tour(r.1@, n as int));
    }
    r
}

/// Solving the same instance twice reports the same total cost: the cost
/// of an exact solution is pinned down as the minimum tour cost, whatever
/// tie-breaking picked the tour itself.
pub proof fn lemma_cost_deterministic(
    m: DistanceMatrix,
    n: int,
    c1: u64,
    p1: Seq<u16>,
    c2: u64,
    p2: Seq<u16>,
)
    requires
        is_tour(p1, n),
        c1 as int == path_cost(m, p1),
        forall|p: Seq<u16>| is_tour(p, n) ==> path_cost(m, p) >= c1 as int,
        is_tour(p2, n),
        c2 as int == path_cost(m, p2),
        forall|p: Seq<u16>| is_tour(p, n) ==> path_cost(m, p) >= c2 as int,
    ensures
        c1 == c2,
{
    assert(path_cost(m, p1) >= c2 as int);
    assert(path_cost(m, p2) >= c1 as int);
}

} // verus!

