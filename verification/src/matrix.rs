//! Pairwise squared Euclidean distances between cities, stored in a flat
//! row-major table and looked up through a canonical (ordered) pair key.

use vstd::prelude::*;

verus! {

/// Squared Euclidean distance between two planar points.
pub open spec fn sq_dist(a: (u32, u32), b: (u32, u32)) -> int {
    let dx = a.0 as int - b.0 as int;
    let dy = a.1 as int - b.1 as int;
    dx * dx + dy * dy
}

/// Squared distance is symmetric in its two points.
pub proof fn lemma_sq_dist_symmetric(a: (u32, u32), b: (u32, u32))
    ensures
        sq_dist(a, b) == sq_dist(b, a),
{
    let x0 = a.0 as int;
    let x1 = b.0 as int;
    let y0 = a.1 as int;
    let y1 = b.1 as int;
    assert((x0 - x1) * (x0 - x1) == (x1 - x0) * (x1 - x0)) by (nonlinear_arith);
    assert((y0 - y1) * (y0 - y1) == (y1 - y0) * (y1 - y0)) by (nonlinear_arith);
}

/// Squared distance of two distinct points is strictly positive.
pub proof fn lemma_sq_dist_positive(a: (u32, u32), b: (u32, u32))
    requires
        a != b,
    ensures
        sq_dist(a, b) > 0,
{
    let dx = a.0 as int - b.0 as int;
    let dy = a.1 as int - b.1 as int;
    assert(dx != 0 || dy != 0);
    assert(dx * dx >= 0 && dy * dy >= 0 && (dx != 0 ==> dx * dx > 0) && (dy != 0 ==> dy * dy
        > 0)) by (nonlinear_arith);
}

/// Orders a pair of city identifiers so that the smaller one comes first:
/// the canonical key under which a symmetric distance entry is stored.
pub fn make_key(i: u16, j: u16) -> (r: (u16, u16))
    ensures
        r.0 <= r.1,
        (r.0 == i && r.1 == j) || (r.0 == j && r.1 == i),
{
    if i < j {
        (i, j)
    } else {
        (j, i)
    }
}

/// Squared Euclidean distance between the coordinates of two cities.
pub fn distance(a: (u32, u32), b: (u32, u32)) -> (r: u32)
    requires
        sq_dist(a, b) <= u32::MAX,
    ensures
        r == sq_dist(a, b),
{
    let dx: u32 = if a.0 >= b.0 {
        a.0 - b.0
    } else {
        b.0 - a.0
    };
    let dy: u32 = if a.1 >= b.1 {
        a.1 - b.1
    } else {
        b.1 - a.1
    };
    proof {
        let x0 = a.0 as int;
        let x1 = b.0 as int;
        let y0 = a.1 as int;
        let y1 = b.1 as int;
        assert((x0 - x1) * (x0 - x1) == (x1 - x0) * (x1 - x0)) by (nonlinear_arith);
        assert((y0 - y1) * (y0 - y1) == (y1 - y0) * (y1 - y0)) by (nonlinear_arith);
        assert(dx as int * dx as int >= 0 && dy as int * dy as int >= 0) by (nonlinear_arith);
    }
    let sx: u64 = (dx as u64) * (dx as u64);
    let sy: u64 = (dy as u64) * (dy as u64);
    (sx + sy) as u32
}

/// Symmetric table of pairwise squared distances for `n` cities, held as a
/// flat `n * n` row-major buffer.
pub struct DistanceMatrix {
    pub n: u16,
    pub d: Vec<u32>,
}

impl DistanceMatrix {
    /// Number of cities the table covers.
    pub open spec fn spec_n(self) -> int {
        self.n as int
    }

    /// The table holds one cell for every ordered pair of cities.
    pub open spec fn wf(self) -> bool {
        self.d@.len() == self.n as int * self.n as int
    }

    /// The stored distance for the unordered pair {i, j}: the cell under the
    /// canonical key, so it is symmetric by construction.
    pub open spec fn spec_dist(self, i: int, j: int) -> u32 {
        if i <= j {
            self.d@[i * (self.n as int) + j]
        } else {
            self.d@[j * (self.n as int) + i]
        }
    }

    /// Number of cities the table covers.
    pub fn n(&self) -> (r: u16)
        ensures
            r == self.spec_n(),
    {
        self.n
    }

    /// Symmetric lookup: the distance between cities `i` and `j`, in either
    /// argument order.
    pub fn get(&self, i: u16, j: u16) -> (r: u32)
        requires
            self.wf(),
            i < self.spec_n(),
            j < self.spec_n(),
        ensures
            r == self.spec_dist(i as int, j as int),
    {
        let (a, b) = make_key(i, j);
        proof {
            lemma_row_col(self.n as int, a as int, b as int);
            assert(self.n as int * self.n as int <= 65535 * 65535) by (nonlinear_arith)
                requires
                    self.n <= 65535,
            ;
        }
        self.d[(a as usize) * (self.n as usize) + (b as usize)]
    }
}

/// A row-major cell index lies inside the `n * n` table.
pub proof fn lemma_row_col(n: int, i: int, j: int)
    by (nonlinear_arith)
    requires
        0 <= i < n,
        0 <= j < n,
    ensures
        0 <= i * n + j < n * n,
{
}

/// The distance table is symmetric: looking the pair up in either order
/// yields the same value.
pub proof fn lemma_dist_symmetric(m: DistanceMatrix, i: int, j: int)
    ensures
        m.spec_dist(i, j) == m.spec_dist(j, i),
{
}

/// In a table built from the cities' coordinates, the distance between two
/// cities at distinct coordinates is strictly positive.
pub proof fn lemma_dist_positive(m: DistanceMatrix, points: Seq<(u32, u32)>, i: int, j: int)
    requires
        m.spec_n() == points.len(),
        forall|a: int, b: int|
            0 <= a < points.len() && 0 <= b < points.len() && a != b ==> m.spec_dist(a, b)
                == sq_dist(points[a], points[b]),
        0 <= i < points.len(),
        0 <= j < points.len(),
        i != j,
        points[i] != points[j],
    ensures
        m.spec_dist(i, j) > 0,
{
    lemma_sq_dist_positive(points[i], points[j]);
}

/// One cell of the flat distance buffer holds the squared distance of its
/// row and column cities, with a zero diagonal.
pub open spec fn cell_ok(d: Seq<u32>, points: Seq<(u32, u32)>, nn: int, r: int, c: int) -> bool {
    d[r * nn + c] == if r == c {
        0int
    } else {
        sq_dist(points[r], points[c])
    }
}

/// Builds the full symmetric distance table from the city coordinates:
/// every pair of distinct cities gets its squared Euclidean distance, and
/// the diagonal (a city paired with itself) is fixed at zero.
#[verifier::loop_isolation(false)]
pub fn init_distance_matrix(points: &Vec<(u32, u32)>) -> (m: DistanceMatrix)
    requires
        points@.len() <= u16::MAX,
        forall|i: int, j: int|
            0 <= i < points@.len() && 0 <= j < points@.len() ==> sq_dist(points@[i], points@[j])
                <= u32::MAX,
    ensures
        m.wf(),
        m.spec_n() == points@.len(),
        forall|i: int, j: int|
            0 <= i < points@.len() && 0 <= j < points@.len() && i != j ==> m.spec_dist(i, j)
                == sq_dist(points@[i], points@[j]),
        forall|i: int| 0 <= i < points@.len() ==> m.spec_dist(i, i) == 0,
{
    let nn = points.len();
    let n = nn as u16;
    let mut d: Vec<u32> = Vec::new();
    let mut i: usize = 0;
    while i < nn
        invariant
            i <= nn,
            d@.len() == i * nn,
            forall|r: int, c: int|
                0 <= r < i && 0 <= c < nn ==> #[trigger] cell_ok(d@, points@, nn as int, r, c),
        decreases nn - i,
    {
        let mut j: usize = 0;
        while j < nn
            invariant
                i < nn,
                j <= nn,
                d@.len() == i * nn + j,
                forall|r: int, c: int|
                    0 <= r < i && 0 <= c < nn ==> #[trigger] cell_ok(d@, points@, nn as int, r, c),
                forall|c: int| 0 <= c < j ==> #[trigger] cell_ok(d@, points@, nn as int, i as int, c),
            decreases nn - j,
        {
            proof {
                lemma_row_col(nn as int, i as int, j as int);
            }
            let ghost d0 = d@;
            if i == j {
                d.push(0);
            } else {
                let dist = distance(points[i], points[j]);
                d.push(dist);
            }
            j = j + 1;
            proof {
                assert(d@.len() == d0.len() + 1);
                assert(d@[d0.len() as int] == (if i == j - 1 {
                    0int
                } else {
                    sq_dist(points@[i as int], points@[j - 1])
                }));
                assert forall|r: int, c: int|
                    0 <= r < i && 0 <= c < nn implies #[trigger] cell_ok(
                    d@,
                    points@,
                    nn as int,
                    r,
                    c,
                ) by {
                    lemma_cell_below_row(nn as int, r, c, i as int);
                    lemma_row_col(nn as int, r, c);
                    assert(cell_ok(d0, points@, nn as int, r, c));
                    assert(d@[r * nn + c] == d0[r * nn + c]);
                };
                assert forall|c: int| 0 <= c < j implies #[trigger] cell_ok(
                    d@,
                    points@,
                    nn as int,
                    i as int,
                    c,
                ) by {
                    lemma_row_col(nn as int, i as int, c);
                    if c < j - 1 {
                        assert(cell_ok(d0, points@, nn as int, i as int, c));
                        assert(d@[i * nn + c] == d0[i * nn + c]);
                    } else {
                        assert(i * nn + c == d0.len());
                    }
                };
            }
        }
        i = i + 1;
        proof {
            assert(i * nn == (i - 1) * nn + nn) by (nonlinear_arith);
        }
    }
    proof {
        assert(nn * nn == n as int * n as int);
    }
    let m = DistanceMatrix { n, d };
    proof {
        assert forall|i0: int, j0: int|
            0 <= i0 < points@.len() && 0 <= j0 < points@.len() && i0 != j0 implies m.spec_dist(
            i0,
            j0,
        ) == sq_dist(points@[i0], points@[j0]) by {
            lemma_sq_dist_symmetric(points@[i0], points@[j0]);
            if i0 <= j0 {
                assert(cell_ok(m.d@, points@, nn as int, i0, j0));
            } else {
                assert(cell_ok(m.d@, points@, nn as int, j0, i0));
            }
        };
        assert forall|i0: int| 0 <= i0 < points@.len() implies m.spec_dist(i0, i0) == 0 by {
            assert(cell_ok(m.d@, points@, nn as int, i0, i0));
        };
    }
    m
}

/// Every cell of a row strictly below row `i` lies below the start of row `i`.
pub proof fn lemma_cell_below_row(n: int, r: int, c: int, i: int)
    by (nonlinear_arith)
    requires
        0 <= c < n,
        0 <= r < i,
    ensures
        r * n + c < i * n,
{
}

/// Coordinates below a common bound of at most 2^15 keep every squared
/// distance within the table's entry type.
pub proof fn lemma_bounded_sq_dist(a: (u32, u32), b: (u32, u32), bound: u32)
    requires
        bound <= 0x8000,
        a.0 < bound,
        b.0 < bound,
        a.1 < bound,
        b.1 < bound,
    ensures
        0 <= sq_dist(a, b) <= u32::MAX,
{
    let dx = a.0 as int - b.0 as int;
    let dy = a.1 as int - b.1 as int;
    assert(dx * dx <= 0x8000 * 0x8000 && dx * dx >= 0) by (nonlinear_arith)
        requires
            -0x8000 <= dx <= 0x8000,
    ;
    assert(dy * dy <= 0x8000 * 0x8000 && dy * dy >= 0) by (nonlinear_arith)
        requires
            -0x8000 <= dy <= 0x8000,
    ;
}

} // verus!
