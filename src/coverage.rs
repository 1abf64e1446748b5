use vstd::prelude::*;
use vstd::std_specs::bits::{axiom_u64_trailing_zeros, u64_trailing_zeros};
use cdshealpix::nested::bmoc::BMOC;

verus! {

/// Deepest resolution level the index supports.
pub const DEPTH_MAX: u8 = 29;

/// `4^n`: the number of sub-cells a cell has `n` levels deeper.
pub open spec fn pow4(n: nat) -> nat
    decreases n,
{
    if n == 0 {
        1
    } else {
        4 * pow4((n - 1) as nat)
    }
}

/// Number of cells at a resolution level (12 base cells, each split in four per level).
pub open spec fn n_hash(depth: u8) -> nat {
    12 * pow4(depth as nat)
}

/// One cell of a coverage result: its index at its own level, that level, and
/// whether the queried region contains it entirely.
#[derive(Clone, Copy, Debug)]
pub struct Cell {
    pub hash: u64,
    pub depth: u8,
    pub is_full: bool,
}

/// A cell as a plain triple `(index, level, full-flag)`.
pub open spec fn cell_model(c: Cell) -> (u64, u8, bool) {
    (c.hash, c.depth, c.is_full)
}

pub open spec fn cells_model(cells: Seq<Cell>) -> Seq<(u64, u8, bool)> {
    cells.map_values(|c: Cell| cell_model(c))
}

/// A cell is usable under maximum depth `d` when its level does not exceed `d`
/// and its index exists at its level.
pub open spec fn valid_cell(c: (u64, u8, bool), d: u8) -> bool {
    c.1 <= d && (c.0 as nat) < n_hash(c.1)
}

pub open spec fn valid_cells(cells: Seq<(u64, u8, bool)>, d: u8) -> bool {
    &&& d <= DEPTH_MAX
    &&& forall|i: int| 0 <= i < cells.len() ==> valid_cell(#[trigger] cells[i], d)
}

/// The leaf entries that one cell stands for at depth `d`: its `4^(d - level)`
/// sub-cells in index order, each at depth `d` and carrying the cell's flag.
pub open spec fn expand(c: (u64, u8, bool), d: u8) -> Seq<(int, u8, bool)> {
    let p = pow4((d - c.1) as nat);
    Seq::new(p, |k: int| (c.0 as int * p + k, d, c.2))
}

/// Flat encoding: every cell expanded to depth `d`, cells kept in order.
pub open spec fn flat(cells: Seq<(u64, u8, bool)>, d: u8) -> Seq<(int, u8, bool)>
    decreases cells.len(),
{
    if cells.len() == 0 {
        Seq::empty()
    } else {
        flat(cells.drop_last(), d) + expand(cells.last(), d)
    }
}

/// As-is encoding: one entry per cell, in order.
pub open spec fn as_is(cells: Seq<(u64, u8, bool)>) -> Seq<(int, u8, bool)> {
    cells.map_values(|c: (u64, u8, bool)| (c.0 as int, c.1, c.2))
}

/// Three parallel arrays: index, level and full-flag of each entry.
pub struct CellArrays {
    pub ipix: Vec<u64>,
    pub depth: Vec<u8>,
    pub fully_covered: Vec<bool>,
}

impl CellArrays {
    /// The three arrays have one length.
    pub open spec fn wf(&self) -> bool {
        &&& self.ipix@.len() == self.depth@.len()
        &&& self.ipix@.len() == self.fully_covered@.len()
    }

    /// The entries, read across the three arrays.
    pub open spec fn entries(&self) -> Seq<(int, u8, bool)> {
        Seq::new(
            self.ipix@.len(),
            |i: int| (self.ipix@[i] as int, self.depth@[i], self.fully_covered@[i]),
        )
    }

    /// Number of entries.
    pub fn len(&self) -> (r: usize)
        requires
            self.wf(),
        ensures
            r == self.entries().len(),
    {
        self.ipix.len()
    }
}

/// What a coverage result stores: one raw entry per cell, in stored order.
pub uninterp spec fn bmoc_raw(b: BMOC) -> Seq<u64>;

/// The maximum depth a coverage result was computed at.
pub uninterp spec fn bmoc_depth_max(b: BMOC) -> u8;

#[verifier::external_type_specification]
#[verifier::external_body]
pub struct ExBMOC(BMOC);

/// Relies on `BMOC::get_depth_max`: the depth the result was built at.
#[verifier::external_body]
fn depth_max_of(bmoc: &BMOC) -> (r: u8)
    ensures
        r == bmoc_depth_max(*bmoc),
{
    bmoc.get_depth_max()
}

/// Relies on `BMOC::iter`: the stored raw entries, in stored order.
#[verifier::external_body]
fn raw_entries_of(bmoc: &BMOC) -> (r: Vec<u64>)
    ensures
        r@ == bmoc_raw(*bmoc),
{
    bmoc.iter().copied().collect()
}

/// The cell a raw entry stands for under maximum depth `d`. Bit 0 is the
/// full-flag; above it, a marker bit sits `2 * gap` bits above the index,
/// where `gap` is how many levels the cell lies above `d`. `None` where the
/// entry has no marker, where the gap exceeds `d`, or where `d` exceeds the
/// deepest level.
pub open spec fn decode_raw(raw: u64, d: u8) -> Option<(u64, u8, bool)> {
    let gap = u64_trailing_zeros(raw >> 1u64) / 2;
    if d <= DEPTH_MAX && gap <= d as u32 {
        Some((raw >> ((2 + 2 * gap) as u64), (d - gap) as u8, raw & 1u64 == 1u64))
    } else {
        None
    }
}

/// Every raw entry decodes under maximum depth `d`.
pub open spec fn all_decode(raw: Seq<u64>, d: u8) -> bool {
    forall|i: int| 0 <= i < raw.len() ==> (#[trigger] decode_raw(raw[i], d)) is Some
}

/// The decoded cells, in stored order (meaningful where [`all_decode`] holds).
pub open spec fn decoded(raw: Seq<u64>, d: u8) -> Seq<(u64, u8, bool)> {
    raw.map_values(
        |e: u64|
            match decode_raw(e, d) {
                Some(c) => c,
                None => (0u64, 0u8, false),
            },
    )
}

/// Decodes one raw entry (see [`decode_raw`]).
pub fn decode_entry(raw: u64, depth_max: u8) -> (r: Option<Cell>)
    ensures
        match r {
            Some(c) => decode_raw(raw, depth_max) == Some(cell_model(c)),
            None => decode_raw(raw, depth_max) is None,
        },
{
    if depth_max > DEPTH_MAX {
        return None;
    }
    let gap: u32 = (raw >> 1u64).trailing_zeros() / 2;
    proof {
        axiom_u64_trailing_zeros(raw >> 1u64);
    }
    if gap > depth_max as u32 {
        return None;
    }
    let shift: u64 = (2 + 2 * gap) as u64;
    Some(Cell { hash: raw >> shift, depth: depth_max - gap as u8, is_full: raw & 1u64 == 1u64 })
}

/// Decodes every raw entry; `None` as soon as one does not decode.
pub fn decode_entries(raw: &[u64], depth_max: u8) -> (r: Option<Vec<Cell>>)
    ensures
        r is Some <==> all_decode(raw@, depth_max),
        r matches Some(v) ==> cells_model(v@) == decoded(raw@, depth_max),
{
    let n = raw.len();
    let mut out: Vec<Cell> = Vec::with_capacity(n);
    let mut i: usize = 0;
    while i < n
        invariant
            n == raw@.len(),
            i <= n,
            out@.len() == i,
            forall|j: int| 0 <= j < i ==> decode_raw(raw@[j], depth_max) == Some(
                cell_model(#[trigger] out@[j]),
            ),
        decreases n - i,
    {
        match decode_entry(raw[i], depth_max) {
            Some(c) => out.push(c),
            None => {
                return None;
            },
        }
        i = i + 1;
    }
    assert forall|j: int| 0 <= j < n implies (#[trigger] decode_raw(raw@[j], depth_max)) is Some by {
        assert(decode_raw(raw@[j], depth_max) == Some(cell_model(out@[j])));
    }
    assert(cells_model(out@) =~= decoded(raw@, depth_max)) by {
        assert forall|j: int| 0 <= j < n implies cells_model(out@)[j] == decoded(raw@, depth_max)[j] by {
            assert(decode_raw(raw@[j], depth_max) == Some(cell_model(out@[j])));
        }
    }
    Some(out)
}

proof fn lemma_pow4_add(a: nat, b: nat)
    ensures
        pow4(a) * pow4(b) == pow4(a + b),
    decreases a,
{
    if a > 0 {
        let a1 = (a - 1) as nat;
        lemma_pow4_add(a1, b);
        assert(pow4(a) == 4 * pow4(a1));
        assert((a + b - 1) as nat == a1 + b);
        assert(pow4(a + b) == 4 * pow4(a1 + b));
        let x = pow4(a1);
        let y = pow4(b);
        assert((4 * x) * y == 4 * (x * y)) by (nonlinear_arith);
    } else {
        assert(pow4(a) == 1);
    }
}

proof fn lemma_pow4_mono(a: nat, b: nat)
    requires
        a <= b,
    ensures
        pow4(a) <= pow4(b),
    decreases b,
{
    if a < b {
        lemma_pow4_mono(a, (b - 1) as nat);
    }
}

/// Every index of every level is below `12 * 4^29`, so it fits an `i64`.
pub proof fn lemma_n_hash_bound(depth: u8)
    requires
        depth <= DEPTH_MAX,
    ensures
        n_hash(depth) <= 12 * 288230376151711744,
{
    lemma_pow4_mono(depth as nat, DEPTH_MAX as nat);
    lemma_pow4_deepest();
}

proof fn lemma_pow4_deepest()
    ensures
        pow4(DEPTH_MAX as nat) == 288230376151711744,
{
    reveal_with_fuel(pow4, 30);
}

/// A sub-cell index of a valid cell fits in a `u64`.
proof fn lemma_leaf_bound(h: nat, l: u8, d: u8, k: nat)
    requires
        h < n_hash(l),
        l <= d <= DEPTH_MAX,
        k < pow4((d - l) as nat),
    ensures
        h * pow4((d - l) as nat) + k < n_hash(d),
        n_hash(d) <= 12 * 288230376151711744,
{
    let p = pow4((d - l) as nat);
    lemma_pow4_add(l as nat, (d - l) as nat);
    lemma_pow4_mono(d as nat, DEPTH_MAX as nat);
    lemma_pow4_deepest();
    assert(h * p + k < 12 * (pow4(l as nat) * p)) by (nonlinear_arith)
        requires
            h + 1 <= 12 * pow4(l as nat),
            k < p,
    ;
}

/// `4^k` for a level difference `k`.
fn pow4_exec(k: u8) -> (r: u64)
    requires
        k <= DEPTH_MAX,
    ensures
        r == pow4(k as nat),
{
    proof {
        lemma_pow4_deepest();
    }
    let mut r: u64 = 1;
    let mut j: u8 = 0;
    while j < k
        invariant
            j <= k <= DEPTH_MAX,
            r == pow4(j as nat),
            pow4(DEPTH_MAX as nat) == 288230376151711744,
        decreases k - j,
    {
        proof {
            lemma_pow4_mono((j + 1) as nat, DEPTH_MAX as nat);
        }
        r = r * 4;
        j = j + 1;
    }
    r
}

/// Whether a cell is usable under maximum depth `d` (see [`valid_cell`]).
fn is_valid_cell(c: &Cell, d: u8) -> (r: bool)
    requires
        d <= DEPTH_MAX,
    ensures
        r == valid_cell(cell_model(*c), d),
{
    if c.depth > d {
        return false;
    }
    let n = pow4_exec(c.depth);
    proof {
        lemma_pow4_mono(c.depth as nat, DEPTH_MAX as nat);
        lemma_pow4_deepest();
    }
    c.hash < 12 * n
}

/// Cell `i` contributes its expansion right after the leaves of the cells before it.
pub proof fn lemma_flat_step(cells: Seq<(u64, u8, bool)>, d: u8, i: int)
    requires
        0 <= i < cells.len(),
    ensures
        flat(cells.take(i + 1), d) == flat(cells.take(i), d) + expand(cells[i], d),
{
    assert(cells.take(i + 1).drop_last() =~= cells.take(i));
}

/// Non-flat encoding: one entry per cell, in the cells' order.
pub fn cells_as_is(cells: &[Cell]) -> (r: CellArrays)
    ensures
        r.wf(),
        r.entries() == as_is(cells_model(cells@)),
{
    let n = cells.len();
    let mut out = CellArrays {
        ipix: Vec::with_capacity(n),
        depth: Vec::with_capacity(n),
        fully_covered: Vec::with_capacity(n),
    };
    let mut i: usize = 0;
    while i < n
        invariant
            n == cells@.len(),
            i <= n,
            out.wf(),
            out.ipix@.len() == i,
            forall|j: int|
                0 <= j < i ==> out.ipix@[j] == cells@[j].hash && out.depth@[j] == cells@[j].depth
                    && out.fully_covered@[j] == cells@[j].is_full,
        decreases n - i,
    {
        let c = cells[i];
        out.ipix.push(c.hash);
        out.depth.push(c.depth);
        out.fully_covered.push(c.is_full);
        i = i + 1;
    }
    assert(out.entries() =~= as_is(cells_model(cells@)));
    out
}

/// Flat encoding at maximum depth `depth_max`: each cell replaced, in order,
/// by its `4^(depth_max - level)` sub-cells at `depth_max`, each with the
/// cell's full-flag. The output is sized once, before it is filled.
///
/// `None` when a cell is deeper than `depth_max` or its index does not exist
/// at its level, when `depth_max` exceeds the deepest level, or when the
/// expansion is too large to be held.
pub fn flatten_cells(cells: &[Cell], depth_max: u8) -> (r: Option<CellArrays>)
    ensures
        r is Some <==> (valid_cells(cells_model(cells@), depth_max) && flat(
            cells_model(cells@),
            depth_max,
        ).len() <= usize::MAX),
        r matches Some(a) ==> a.wf() && a.entries() == flat(cells_model(cells@), depth_max),
{
    let ghost m = cells_model(cells@);
    let n = cells.len();
    if depth_max > DEPTH_MAX {
        return None;
    }
    // First pass: check every cell and count the leaves.
    let mut total: u64 = 0;
    let mut i: usize = 0;
    while i < n
        invariant
            n == cells@.len(),
            m == cells_model(cells@),
            depth_max <= DEPTH_MAX,
            i <= n,
            total == flat(m.take(i as int), depth_max).len(),
            forall|j: int| 0 <= j < i ==> valid_cell(#[trigger] m[j], depth_max),
        decreases n - i,
    {
        assert(m[i as int] == cell_model(cells@[i as int]));
        if !is_valid_cell(&cells[i], depth_max) {
            return None;
        }
        let p = pow4_exec(depth_max - cells[i].depth);
        proof {
            lemma_flat_step(m, depth_max, i as int);
        }
        if total > u64::MAX - p {
            proof {
                lemma_flat_len_grows(m, depth_max, i as int + 1);
            }
            return None;
        }
        total = total + p;
        i = i + 1;
    }
    assert(m.take(n as int) =~= m);
    if total > usize::MAX as u64 {
        return None;
    }
    let len = total as usize;
    let mut out = CellArrays {
        ipix: Vec::with_capacity(len),
        depth: Vec::with_capacity(len),
        fully_covered: Vec::with_capacity(len),
    };
    // Second pass: write the leaves.
    let mut i: usize = 0;
    while i < n
        invariant
            n == cells@.len(),
            m == cells_model(cells@),
            valid_cells(m, depth_max),
            i <= n,
            out.wf(),
            out.entries() =~= flat(m.take(i as int), depth_max),
        decreases n - i,
    {
        let c = cells[i];
        assert(m[i as int] == cell_model(cells@[i as int]));
        assert(valid_cell(m[i as int], depth_max));
        let p = pow4_exec(depth_max - c.depth);
        let ghost before = out.entries();
        let mut k: u64 = 0;
        while k < p
            invariant
                i < n == m.len(),
                m[i as int] == cell_model(c),
                valid_cell(cell_model(c), depth_max),
                depth_max <= DEPTH_MAX,
                p == pow4((depth_max - c.depth) as nat),
                k <= p,
                out.wf(),
                out.entries() =~= before + expand(cell_model(c), depth_max).take(k as int),
            decreases p - k,
        {
            proof {
                lemma_leaf_bound(c.hash as nat, c.depth, depth_max, k as nat);
            }
            let ghost prev = out.entries();
            out.ipix.push(c.hash * p + k);
            out.depth.push(depth_max);
            out.fully_covered.push(c.is_full);
            k = k + 1;
            assert(out.entries() =~= prev.push(expand(cell_model(c), depth_max)[k - 1]));
            assert(expand(cell_model(c), depth_max).take(k as int) =~= expand(
                cell_model(c),
                depth_max,
            ).take(k - 1).push(expand(cell_model(c), depth_max)[k - 1]));
        }
        assert(expand(cell_model(c), depth_max).take(p as int) =~= expand(cell_model(c), depth_max));
        proof {
            lemma_flat_step(m, depth_max, i as int);
        }
        i = i + 1;
    }
    assert(m.take(n as int) =~= m);
    Some(out)
}

proof fn lemma_flat_len_grows(cells: Seq<(u64, u8, bool)>, d: u8, i: int)
    requires
        0 <= i <= cells.len(),
    ensures
        flat(cells.take(i), d).len() <= flat(cells, d).len(),
    decreases cells.len() - i,
{
    if i < cells.len() {
        lemma_flat_step(cells, d, i);
        lemma_flat_len_grows(cells, d, i + 1);
    } else {
        assert(cells.take(i) =~= cells);
    }
}


/// Non-flat encoding of a coverage result: one entry per cell, in the
/// result's own order. `None` where a stored entry does not decode.
pub fn get_cells(bmoc: &BMOC) -> (r: Option<CellArrays>)
    ensures
        r is Some <==> all_decode(bmoc_raw(*bmoc), bmoc_depth_max(*bmoc)),
        r matches Some(a) ==> a.wf() && a.entries() == as_is(
            decoded(bmoc_raw(*bmoc), bmoc_depth_max(*bmoc)),
        ),
{
    let depth_max = depth_max_of(bmoc);
    let raw = raw_entries_of(bmoc);
    match decode_entries(raw.as_slice(), depth_max) {
        Some(cells) => Some(cells_as_is(cells.as_slice())),
        None => None,
    }
}

/// Flat encoding of a coverage result at the depth it was computed at
/// (see [`flatten_cells`]). `None` where a stored entry does not decode or
/// the decoded cells cannot be flattened.
pub fn get_flat_cells(bmoc: &BMOC) -> (r: Option<CellArrays>)
    ensures
        r is Some <==> (all_decode(bmoc_raw(*bmoc), bmoc_depth_max(*bmoc)) && valid_cells(
            decoded(bmoc_raw(*bmoc), bmoc_depth_max(*bmoc)),
            bmoc_depth_max(*bmoc),
        ) && flat(decoded(bmoc_raw(*bmoc), bmoc_depth_max(*bmoc)), bmoc_depth_max(*bmoc)).len()
            <= usize::MAX),
        r matches Some(a) ==> a.wf() && a.entries() == flat(
            decoded(bmoc_raw(*bmoc), bmoc_depth_max(*bmoc)),
            bmoc_depth_max(*bmoc),
        ),
{
    let depth_max = depth_max_of(bmoc);
    let raw = raw_entries_of(bmoc);
    match decode_entries(raw.as_slice(), depth_max) {
        Some(cells) => flatten_cells(cells.as_slice(), depth_max),
        None => None,
    }
}

/// The entries of one encoding: flat at depth `d`, or as-is.
pub open spec fn encoding(cells: Seq<(u64, u8, bool)>, d: u8, flat_mode: bool) -> Seq<(int, u8, bool)> {
    if flat_mode {
        flat(cells, d)
    } else {
        as_is(cells)
    }
}

/// The three arrays of a coverage result, in the encoding `flat` selects.
pub fn coverage_arrays(bmoc: &BMOC, flat: bool) -> (r: Option<CellArrays>)
    ensures
        !flat ==> (r is Some <==> all_decode(bmoc_raw(*bmoc), bmoc_depth_max(*bmoc))),
        flat ==> (r is Some <==> (all_decode(bmoc_raw(*bmoc), bmoc_depth_max(*bmoc)) && valid_cells(
            decoded(bmoc_raw(*bmoc), bmoc_depth_max(*bmoc)),
            bmoc_depth_max(*bmoc),
        ) && encoding(decoded(bmoc_raw(*bmoc), bmoc_depth_max(*bmoc)), bmoc_depth_max(*bmoc), true).len()
            <= usize::MAX)),
        r matches Some(a) ==> a.wf() && a.entries() == encoding(
            decoded(bmoc_raw(*bmoc), bmoc_depth_max(*bmoc)),
            bmoc_depth_max(*bmoc),
            flat,
        ),
{
    if flat {
        get_flat_cells(bmoc)
    } else {
        get_cells(bmoc)
    }
}

/// Encoding is deterministic: two array sets that both encode the same cells
/// in the same mode are equal, array by array.
pub proof fn lemma_encoding_deterministic(
    cells: Seq<(u64, u8, bool)>,
    d: u8,
    flat_mode: bool,
    a: CellArrays,
    b: CellArrays,
)
    requires
        a.wf(),
        b.wf(),
        a.entries() == encoding(cells, d, flat_mode),
        b.entries() == encoding(cells, d, flat_mode),
    ensures
        a.ipix@ == b.ipix@,
        a.depth@ == b.depth@,
        a.fully_covered@ == b.fully_covered@,
{
    assert(a.entries().len() == a.ipix@.len());
    assert(b.entries().len() == b.ipix@.len());
    assert forall|i: int| 0 <= i < a.ipix@.len() implies a.ipix@[i] == b.ipix@[i] && a.depth@[i]
        == b.depth@[i] && a.fully_covered@[i] == b.fully_covered@[i] by {
        assert(a.entries()[i] == b.entries()[i]);
        assert(a.entries()[i] == (a.ipix@[i] as int, a.depth@[i], a.fully_covered@[i]));
        assert(b.entries()[i] == (b.ipix@[i] as int, b.depth@[i], b.fully_covered@[i]));
    }
    assert(a.ipix@ =~= b.ipix@);
    assert(a.depth@ =~= b.depth@);
    assert(a.fully_covered@ =~= b.fully_covered@);
}

/// A cell at level `L` under maximum depth `D >= L` expands to exactly
/// `4^(D - L)` entries, all at depth `D` and all with the cell's full-flag.
pub proof fn lemma_expand_size_and_flag(c: (u64, u8, bool), d: u8)
    requires
        c.1 <= d,
    ensures
        expand(c, d).len() == pow4((d - c.1) as nat),
        forall|k: int| 0 <= k < expand(c, d).len() ==> (#[trigger] expand(c, d)[k]).1 == d
            && expand(c, d)[k].2 == c.2,
{
}

/// Where cell `k`'s block starts in the flat encoding: after the leaves of
/// every cell before it.
pub open spec fn block_start(cells: Seq<(u64, u8, bool)>, d: u8, k: int) -> int {
    flat(cells.take(k), d).len() as int
}

proof fn lemma_flat_prefix(cells: Seq<(u64, u8, bool)>, d: u8, i: int)
    requires
        0 <= i <= cells.len(),
    ensures
        block_start(cells, d, i) <= flat(cells, d).len(),
        flat(cells.take(i), d) == flat(cells, d).subrange(0, block_start(cells, d, i)),
    decreases cells.len() - i,
{
    if i == cells.len() {
        assert(cells.take(i) =~= cells);
        assert(flat(cells, d).subrange(0, flat(cells, d).len() as int) =~= flat(cells, d));
    } else {
        lemma_flat_prefix(cells, d, i + 1);
        lemma_flat_step(cells, d, i);
        let fi = flat(cells.take(i), d);
        let fi1 = flat(cells.take(i + 1), d);
        assert(fi =~= fi1.subrange(0, fi.len() as int));
        assert(fi =~= flat(cells, d).subrange(0, fi.len() as int));
    }
}

/// The flat encoding is the cells' blocks one after the other: cell `k`'s
/// block starts where the blocks before it end and is exactly its expansion
/// (`4^(d - level)` leaves with its flag), and the last block ends where the
/// encoding ends.
pub proof fn lemma_flat_blocks(cells: Seq<(u64, u8, bool)>, d: u8, k: int)
    requires
        0 <= k < cells.len(),
    ensures
        block_start(cells, d, k + 1) == block_start(cells, d, k) + expand(cells[k], d).len(),
        block_start(cells, d, k + 1) <= flat(cells, d).len(),
        flat(cells, d).subrange(block_start(cells, d, k), block_start(cells, d, k + 1)) == expand(
            cells[k],
            d,
        ),
        block_start(cells, d, cells.len() as int) == flat(cells, d).len(),
{
    lemma_flat_step(cells, d, k);
    lemma_flat_prefix(cells, d, k + 1);
    let fk = flat(cells.take(k), d);
    let fk1 = flat(cells.take(k + 1), d);
    let e = expand(cells[k], d);
    assert(fk1.subrange(fk.len() as int, fk1.len() as int) =~= e);
    assert(flat(cells, d).subrange(fk.len() as int, fk1.len() as int) =~= fk1.subrange(
        fk.len() as int,
        fk1.len() as int,
    ));
    assert(cells.take(cells.len() as int) =~= cells);
}

/// Leaf `h` at depth `d` lies inside cell `c`.
pub open spec fn cell_contains(c: (u64, u8, bool), d: u8, h: int) -> bool {
    let p = pow4((d - c.1) as nat);
    c.0 as int * p <= h < (c.0 as int + 1) * p
}

/// The flat encoding and the as-is encoding cover the same region: a leaf at
/// depth `d` is listed in the flat encoding exactly when some cell of the
/// as-is encoding contains it.
pub proof fn lemma_flat_covers_same_leaves(cells: Seq<(u64, u8, bool)>, d: u8, h: int)
    ensures
        (exists|j: int| 0 <= j < flat(cells, d).len() && (#[trigger] flat(cells, d)[j]).0 == h)
            <==> (exists|i: int| 0 <= i < cells.len() && cell_contains(#[trigger] cells[i], d, h)),
    decreases cells.len(),
{
    if cells.len() > 0 {
        let init = cells.drop_last();
        let c = cells.last();
        let f0 = flat(init, d);
        let e = expand(c, d);
        let p = pow4((d - c.1) as nat);
        let fl = flat(cells, d);
        lemma_flat_covers_same_leaves(init, d, h);
        assert(fl == f0 + e);
        assert((c.0 as int + 1) * p == c.0 as int * p + p) by (nonlinear_arith);
        if exists|j: int| 0 <= j < fl.len() && (#[trigger] fl[j]).0 == h {
            let j = choose|j: int| 0 <= j < fl.len() && (#[trigger] fl[j]).0 == h;
            if j < f0.len() {
                assert(f0[j] == fl[j]);
                let i = choose|i: int| 0 <= i < init.len() && cell_contains(#[trigger] init[i], d, h);
                assert(init[i] == cells[i]);
            } else {
                let k = j - f0.len();
                assert(fl[j] == e[k]);
                assert(cell_contains(cells[cells.len() - 1], d, h));
            }
        }
        if exists|i: int| 0 <= i < cells.len() && cell_contains(#[trigger] cells[i], d, h) {
            let i = choose|i: int| 0 <= i < cells.len() && cell_contains(#[trigger] cells[i], d, h);
            if i < cells.len() - 1 {
                assert(init[i] == cells[i]);
                let j = choose|j: int| 0 <= j < f0.len() && (#[trigger] f0[j]).0 == h;
                assert(fl[j] == f0[j]);
            } else {
                let k = h - c.0 as int * p;
                assert(e[k].0 == h);
                assert(fl[f0.len() + k] == e[k]);
            }
        }
    }
}

} // verus!
