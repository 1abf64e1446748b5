use vstd::prelude::*;
use cdshealpix::compass_point::{Cardinal, Ordinal};
use crate::coverage::{n_hash, DEPTH_MAX};
use crate::neighbours::lemma_row_position;
use crate::sentinel::{sentinel_of, to_i64};

verus! {

/// The four corners of a cell, in output order.
#[derive(Clone, Copy, Debug, PartialEq, Eq)]
pub enum Corner {
    S,
    E,
    N,
    W,
}

/// The four sides of a cell, in output order.
#[derive(Clone, Copy, Debug, PartialEq, Eq)]
pub enum Side {
    SE,
    NE,
    NW,
    SW,
}

/// Number of corner slots per cell.
pub const CORNER_SLOTS: usize = 4;

/// `2^n`: the number of cells `n` levels deeper along one side of a cell.
pub open spec fn pow2(n: nat) -> nat
    decreases n,
{
    if n == 0 {
        1
    } else {
        2 * pow2((n - 1) as nat)
    }
}

/// The cell, `delta_depth` levels deeper than `depth`, that touches cell `hash`
/// from outside at corner `c`, if there is one.
pub uninterp spec fn edge_corner(depth: u8, delta_depth: u8, hash: u64, c: Corner) -> Option<u64>;

/// The cells, `delta_depth` levels deeper than `depth`, that touch cell `hash`
/// from outside along side `s`.
pub uninterp spec fn edge_side(depth: u8, delta_depth: u8, hash: u64, s: Side) -> Seq<u64>;

/// Relies on `cdshealpix::nested::external_edge_struct`, read through
/// `ExternalEdge::get_corner` and `ExternalEdge::get_edge`: the outside cell at
/// each corner, if any, in the order of [`Corner`], and the outside cells
/// along each side, in the order of [`Side`].
#[verifier::external_body]
fn edge_parts(depth: u8, delta_depth: u8, hash: u64) -> (r: ([Option<u64>; 4], [Vec<u64>; 4]))
    requires
        depth as int + delta_depth as int <= DEPTH_MAX as int,
        (hash as nat) < n_hash(depth),
    ensures
        forall|t: int|
            0 <= t < 4 ==> #[trigger] r.0@[t] == edge_corner(depth, delta_depth, hash, corner_at(t)),
        forall|t: int|
            0 <= t < 4 ==> (#[trigger] r.1@[t])@ == edge_side(depth, delta_depth, hash, side_at(t)),
{
    let ee = cdshealpix::nested::external_edge_struct(depth, hash, delta_depth);
    let corners = [Cardinal::S, Cardinal::E, Cardinal::N, Cardinal::W].map(|c| ee.get_corner(&c));
    let sides = [Ordinal::SE, Ordinal::NE, Ordinal::NW, Ordinal::SW].map(|o| ee.get_edge(&o).to_vec());
    (corners, sides)
}

pub open spec fn corner_at(c: int) -> Corner {
    if c == 0 {
        Corner::S
    } else if c == 1 {
        Corner::E
    } else if c == 2 {
        Corner::N
    } else {
        Corner::W
    }
}

pub open spec fn side_at(s: int) -> Side {
    if s == 0 {
        Side::SE
    } else if s == 1 {
        Side::NE
    } else if s == 2 {
        Side::NW
    } else {
        Side::SW
    }
}

/// Slot `c` of a cell's corner row: the corner cell in order `S, E, N, W`, or `-1`.
pub open spec fn corner_slot(depth: u8, delta_depth: u8, hash: u64, c: int) -> i64 {
    sentinel_of(edge_corner(depth, delta_depth, hash, corner_at(c)))
}

/// Slot `r` of a cell's edge row: the sides `SE, NE, NW, SW` one after the
/// other, `2^delta_depth` cells each.
pub open spec fn edge_slot(depth: u8, delta_depth: u8, hash: u64, r: int) -> u64 {
    let m = pow2(delta_depth as nat) as int;
    edge_side(depth, delta_depth, hash, side_at(r / m))[r % m]
}

/// Every side of every cell of `ipix` has `2^delta_depth` cells.
pub open spec fn sides_complete(depth: u8, delta_depth: u8, ipix: Seq<u64>) -> bool {
    forall|i: int, s: Side|
        0 <= i < ipix.len() ==> (#[trigger] edge_side(depth, delta_depth, ipix[i], s)).len() == pow2(
            delta_depth as nat,
        )
}

proof fn lemma_pow2_bound(n: nat)
    requires
        n <= DEPTH_MAX,
    ensures
        1 <= pow2(n) <= 536870912,
    decreases n,
{
    if n > 0 {
        lemma_pow2_bound((n - 1) as nat);
        reveal_with_fuel(pow2, 30);
        lemma_pow2_mono(n, DEPTH_MAX as nat);
    }
}

proof fn lemma_pow2_mono(a: nat, b: nat)
    requires
        a <= b,
    ensures
        pow2(a) <= pow2(b),
    decreases b,
{
    if a < b {
        lemma_pow2_mono(a, (b - 1) as nat);
    }
}

fn pow2_exec(k: u8) -> (r: usize)
    requires
        k <= DEPTH_MAX,
    ensures
        r == pow2(k as nat),
        1 <= r <= 536870912,
{
    proof {
        lemma_pow2_bound(k as nat);
    }
    let mut r: usize = 1;
    let mut j: u8 = 0;
    while j < k
        invariant
            j <= k <= DEPTH_MAX,
            r == pow2(j as nat),
        decreases k - j,
    {
        proof {
            lemma_pow2_bound((j + 1) as nat);
        }
        r = r * 2;
        j = j + 1;
    }
    r
}

/// Copies `e` into `edges[start..start + e.len()]`, leaving the rest as it was.
fn write_run(edges: &mut [u64], start: usize, e: &Vec<u64>)
    requires
        start + e@.len() <= old(edges)@.len(),
    ensures
        final(edges)@.len() == old(edges)@.len(),
        forall|x: int|
            0 <= x < final(edges)@.len() ==> #[trigger] final(edges)@[x] == if start <= x < start
                + e@.len() {
                e@[x - start]
            } else {
                old(edges)@[x]
            },
{
    let ghost before = edges@;
    let total = edges.len();
    let mut j: usize = 0;
    while j < e.len()
        invariant
            total == edges@.len(),
            start + e@.len() <= edges@.len(),
            edges@.len() == before.len(),
            j <= e@.len(),
            forall|x: int|
                0 <= x < edges@.len() ==> #[trigger] edges@[x] == if start <= x < start + j {
                    e@[x - start]
                } else {
                    before[x]
                },
        decreases e@.len() - j,
    {
        edges[start + j] = e[j];
        j = j + 1;
    }
}

/// Writes, for each cell of `ipix` at `depth`, the cells `delta_depth` levels
/// deeper that surround it: in row `i` of `corners` its four corner cells in
/// order `S, E, N, W` (`-1` where there is none), and in row `i` of `edges`
/// its four sides `SE, NE, NW, SW`, `2^delta_depth` cells each.
///
/// Returns `false`, leaving the output partly written, exactly when some side
/// does not hold `2^delta_depth` cells.
pub fn external_edges_cells(
    depth: u8,
    delta_depth: u8,
    ipix: &[u64],
    corners: &mut [i64],
    edges: &mut [u64],
) -> (r: bool)
    requires
        depth as int + delta_depth as int <= DEPTH_MAX as int,
        forall|i: int| 0 <= i < ipix@.len() ==> ((#[trigger] ipix@[i]) as nat) < n_hash(depth),
        old(corners)@.len() == CORNER_SLOTS * ipix@.len(),
        old(edges)@.len() == 4 * pow2(delta_depth as nat) * ipix@.len(),
    ensures
        final(corners)@.len() == old(corners)@.len(),
        final(edges)@.len() == old(edges)@.len(),
        r <==> sides_complete(depth, delta_depth, ipix@),
        r ==> forall|k: int|
            0 <= k < final(corners)@.len() ==> #[trigger] final(corners)@[k] == corner_slot(
                depth,
                delta_depth,
                ipix@[k / 4],
                k % 4,
            ),
        r ==> forall|k: int|
            0 <= k < final(edges)@.len() ==> #[trigger] final(edges)@[k] == edge_slot(
                depth,
                delta_depth,
                ipix@[k / (4 * pow2(delta_depth as nat) as int)],
                k % (4 * pow2(delta_depth as nat) as int),
            ),
{
    let n = ipix.len();
    let m = pow2_exec(delta_depth);
    let row = 4 * m;
    let n_edges = edges.len();
    let n_corners = corners.len();
    let mut i: usize = 0;
    let mut base_c: usize = 0;
    let mut base_e: usize = 0;
    while i < n
        invariant
            n == ipix@.len(),
            m == pow2(delta_depth as nat),
            m >= 1,
            row == 4 * m,
            depth as int + delta_depth as int <= DEPTH_MAX as int,
            forall|j: int| 0 <= j < ipix@.len() ==> ((#[trigger] ipix@[j]) as nat) < n_hash(depth),
            corners@.len() == n_corners == 4 * n,
            edges@.len() == n_edges == row * n,
            n_corners == old(corners)@.len(),
            n_edges == old(edges)@.len(),
            i <= n,
            base_c == 4 * i,
            base_e == row * i,
            forall|j: int, s: Side|
                0 <= j < i ==> (#[trigger] edge_side(depth, delta_depth, ipix@[j], s)).len() == m,
            forall|k: int|
                0 <= k < base_c ==> #[trigger] corners@[k] == corner_slot(
                    depth,
                    delta_depth,
                    ipix@[k / 4],
                    k % 4,
                ),
            forall|k: int|
                0 <= k < base_e ==> #[trigger] edges@[k] == edge_slot(
                    depth,
                    delta_depth,
                    ipix@[k / (row as int)],
                    k % (row as int),
                ),
        decreases n - i,
    {
        let hash = ipix[i];
        let (cs, es) = edge_parts(depth, delta_depth, hash);
        proof {
            assert(row * (i + 1) <= row * n) by (nonlinear_arith)
                requires
                    i < n,
            ;
        }
        // Corner `s` and side `s`, for each of the four.
        let mut s: usize = 0;
        while s < 4
            invariant
                i < n == ipix@.len(),
                hash == ipix@[i as int],
                m == pow2(delta_depth as nat),
                m >= 1,
                row == 4 * m,
                depth as int + delta_depth as int <= DEPTH_MAX as int,
                (hash as nat) < n_hash(depth),
                forall|t: int|
                    0 <= t < 4 ==> #[trigger] cs@[t] == edge_corner(depth, delta_depth, hash, corner_at(t)),
                forall|t: int|
                    0 <= t < 4 ==> (#[trigger] es@[t])@ == edge_side(depth, delta_depth, hash, side_at(t)),
                corners@.len() == n_corners == old(corners)@.len(),
                corners@.len() == 4 * n,
                edges@.len() == n_edges == old(edges)@.len(),
                edges@.len() == row * n,
                row * (i + 1) <= row * n,
                base_c == 4 * i,
                base_e == row * i,
                s <= 4,
                forall|t: int| 0 <= t < s ==> (#[trigger] edge_side(depth, delta_depth, hash, side_at(t))).len() == m,
                forall|k: int|
                    0 <= k < base_c + s ==> #[trigger] corners@[k] == corner_slot(
                        depth,
                        delta_depth,
                        ipix@[k / 4],
                        k % 4,
                    ),
                forall|k: int|
                    0 <= k < base_e + s * m ==> #[trigger] edges@[k] == edge_slot(
                        depth,
                        delta_depth,
                        ipix@[k / (row as int)],
                        k % (row as int),
                    ),
            decreases 4 - s,
        {
            let corner = cs[s];
            let e = &es[s];
            proof {
                lemma_row_position((base_c + s) as int, i as int, s as int, 4);
            }
            corners[base_c + s] = to_i64(corner);
            if e.len() != m {
                proof {
                    assert(!sides_complete(depth, delta_depth, ipix@)) by {
                        assert(edge_side(depth, delta_depth, ipix@[i as int], side_at(s as int)).len() != m);
                    }
                }
                return false;
            }
            proof {
                assert(s * m + m <= row) by (nonlinear_arith)
                    requires
                        s < 4,
                        row == 4 * m,
                ;
                assert(row * (i + 1) == row * i + row) by (nonlinear_arith);
                assert((s + 1) * m == s * m + m) by (nonlinear_arith);
            }
            let start = base_e + s * m;
            let ghost before = edges@;
            write_run(edges, start, e);
            proof {
                assert forall|k: int| 0 <= k < base_e + (s + 1) * m implies #[trigger] edges@[k]
                    == edge_slot(depth, delta_depth, ipix@[k / (row as int)], k % (row as int)) by {
                    if k >= start {
                        let j = k - start;
                        lemma_row_position(k, i as int, s * m + j, row as int);
                        assert(s * m == m * s) by (nonlinear_arith);
                        lemma_row_position(s * m + j, s as int, j, m as int);
                        assert(edges@[k] == e@[j]);
                    } else {
                        assert(edges@[k] == before[k]);
                    }
                }
            }
            s = s + 1;
        }
        proof {
            assert forall|j: int, t: Side| 0 <= j < i + 1 implies (#[trigger] edge_side(
                depth,
                delta_depth,
                ipix@[j],
                t,
            )).len() == m by {
                if j == i {
                    let ti: int = if t == Side::SE {
                        0
                    } else if t == Side::NE {
                        1
                    } else if t == Side::NW {
                        2
                    } else {
                        3
                    };
                    assert(side_at(ti) == t);
                }
            }
            assert(row * (i + 1) == row * i + 4 * m) by (nonlinear_arith)
                requires
                    row == 4 * m,
            ;
        }
        i = i + 1;
        base_c = base_c + CORNER_SLOTS;
        base_e = base_e + row;
    }
    true
}

} // verus!
