use vstd::prelude::*;
use cdshealpix::compass_point::MainWind;
use crate::coverage::{lemma_n_hash_bound, n_hash, DEPTH_MAX};
use crate::sentinel::{sentinel_of, to_i64};

verus! {

/// The eight directions in which a cell may have a neighbour.
#[derive(Clone, Copy, Debug, PartialEq, Eq)]
pub enum Direction {
    S,
    SE,
    E,
    SW,
    NE,
    W,
    NW,
    N,
}

/// Number of slots in one cell's neighbour row.
pub const NEIGHBOUR_SLOTS: usize = 9;

/// Slot of the cell itself within its neighbour row.
pub const CENTER_SLOT: usize = 4;

/// The neighbour of cell `hash` at `depth` in direction `dir`, if it has one.
pub uninterp spec fn neighbour_toward(depth: u8, hash: u64, dir: Direction) -> Option<u64>;

/// The directions in the order they are declared in [`Direction`].
pub open spec fn direction_at(t: int) -> Direction {
    if t == 0 {
        Direction::S
    } else if t == 1 {
        Direction::SE
    } else if t == 2 {
        Direction::E
    } else if t == 3 {
        Direction::SW
    } else if t == 4 {
        Direction::NE
    } else if t == 5 {
        Direction::W
    } else if t == 6 {
        Direction::NW
    } else {
        Direction::N
    }
}

/// Relies on `cdshealpix::nested::neighbours` and `MainWindMap::get`: the
/// neighbour in each direction (absent where the cell has none there), listed
/// in the order of [`Direction`].
#[verifier::external_body]
fn neighbours_by_direction(depth: u8, hash: u64) -> (r: [Option<u64>; 8])
    requires
        depth <= DEPTH_MAX,
        (hash as nat) < n_hash(depth),
    ensures
        forall|t: int| 0 <= t < 8 ==> #[trigger] r@[t] == neighbour_toward(depth, hash, direction_at(t)),
{
    let map = cdshealpix::nested::neighbours(depth, hash, false);
    let winds = [MainWind::S, MainWind::SE, MainWind::E, MainWind::SW, MainWind::NE, MainWind::W, MainWind::NW, MainWind::N];
    winds.map(|w| map.get(w).copied())
}

/// Row layout `[S, SE, E, SW, C, NE, W, NW, N]`: the direction each slot holds,
/// `None` for the center slot.
pub open spec fn slot_direction(s: int) -> Option<Direction> {
    if s == 0 {
        Some(Direction::S)
    } else if s == 1 {
        Some(Direction::SE)
    } else if s == 2 {
        Some(Direction::E)
    } else if s == 3 {
        Some(Direction::SW)
    } else if s == 5 {
        Some(Direction::NE)
    } else if s == 6 {
        Some(Direction::W)
    } else if s == 7 {
        Some(Direction::NW)
    } else if s == 8 {
        Some(Direction::N)
    } else {
        None
    }
}

/// The value of slot `s` of cell `hash`'s row: the cell itself at the center,
/// elsewhere the neighbour in that slot's direction or `-1`.
pub open spec fn neighbour_slot(depth: u8, hash: u64, s: int) -> i64 {
    match slot_direction(s) {
        Some(dir) => sentinel_of(neighbour_toward(depth, hash, dir)),
        None => hash as i64,
    }
}

/// Index in [`Direction`] order of the direction slot `s` holds.
fn direction_index_of_slot(s: usize) -> (r: usize)
    requires
        s < NEIGHBOUR_SLOTS,
        s != CENTER_SLOT,
    ensures
        r < 8,
        slot_direction(s as int) == Some(direction_at(r as int)),
{
    if s < CENTER_SLOT {
        s
    } else {
        s - 1
    }
}

/// The center slot of every cell's neighbour row holds the cell itself.
pub proof fn lemma_center_slot_is_cell(depth: u8, hash: u64)
    ensures
        neighbour_slot(depth, hash, CENTER_SLOT as int) == hash as i64,
{
}

/// Position `k` of a row-major table of rows of width `w` lies in row `i`, column `s`.
pub proof fn lemma_row_position(k: int, i: int, s: int, w: int)
    requires
        w > 0,
        0 <= s < w,
        k == w * i + s,
    ensures
        k / w == i,
        k % w == s,
{
    assert(w * i == i * w) by (nonlinear_arith);
    vstd::arithmetic::div_mod::lemma_fundamental_div_mod_converse(k, w, i, s);
}

/// Writes the neighbour row of each cell of `ipix` into `neighbours`, nine
/// slots per cell, row `i` for `ipix[i]`: slot 4 is the cell itself and the
/// others its neighbours in the order `S, SE, E, SW, NE, W, NW, N`, `-1` where
/// there is none.
pub fn neighbours(depth: u8, ipix: &[u64], neighbours: &mut [i64])
    requires
        depth <= DEPTH_MAX,
        forall|i: int| 0 <= i < ipix@.len() ==> ((#[trigger] ipix@[i]) as nat) < n_hash(depth),
        old(neighbours)@.len() == NEIGHBOUR_SLOTS * ipix@.len(),
    ensures
        final(neighbours)@.len() == old(neighbours)@.len(),
        forall|k: int|
            0 <= k < final(neighbours)@.len() ==> #[trigger] final(neighbours)@[k] == neighbour_slot(
                depth,
                ipix@[k / 9],
                k % 9,
            ),
{
    let n = ipix.len();
    let total = neighbours.len();
    let mut i: usize = 0;
    let mut base: usize = 0;
    while i < n
        invariant
            n == ipix@.len(),
            depth <= DEPTH_MAX,
            forall|j: int| 0 <= j < ipix@.len() ==> ((#[trigger] ipix@[j]) as nat) < n_hash(depth),
            neighbours@.len() == 9 * n,
            total == 9 * n,
            i <= n,
            base == 9 * i,
            forall|k: int|
                0 <= k < base ==> #[trigger] neighbours@[k] == neighbour_slot(depth, ipix@[k / 9], k % 9),
        decreases n - i,
    {
        let hash = ipix[i];
        proof {
            lemma_n_hash_bound(depth);
        }
        let row = neighbours_by_direction(depth, hash);
        let mut s: usize = 0;
        while s < NEIGHBOUR_SLOTS
            invariant
                i < n == ipix@.len(),
                hash == ipix@[i as int],
                depth <= DEPTH_MAX,
                (hash as nat) < n_hash(depth),
                forall|t: int| 0 <= t < 8 ==> #[trigger] row@[t] == neighbour_toward(depth, hash, direction_at(t)),
                neighbours@.len() == 9 * n,
                base == 9 * i,
                s <= 9,
                forall|k: int|
                    0 <= k < base + s ==> #[trigger] neighbours@[k] == neighbour_slot(
                        depth,
                        ipix@[k / 9],
                        k % 9,
                    ),
            decreases 9 - s,
        {
            let v = if s == CENTER_SLOT {
                hash as i64
            } else {
                to_i64(row[direction_index_of_slot(s)])
            };
            proof {
                lemma_row_position((base + s) as int, i as int, s as int, 9);
            }
            neighbours[base + s] = v;
            s = s + 1;
        }
        i = i + 1;
        base = base + NEIGHBOUR_SLOTS;
    }
}

} // verus!
