//! Integer-level marshaling around the `cdshealpix` index: sentinel encoding of
//! optional indices, fixed output layouts for neighbour maps and external edges,
//! and flattening of hierarchical coverage results into parallel arrays.

pub mod coverage;
pub mod edges;
pub mod neighbours;
pub mod sentinel;

pub use coverage::{
    cells_as_is, coverage_arrays, flatten_cells, get_cells, get_flat_cells, Cell, CellArrays,
    DEPTH_MAX,
};
pub use edges::{external_edges_cells, Corner, Side, CORNER_SLOTS};
pub use neighbours::{neighbours, Direction, CENTER_SLOT, NEIGHBOUR_SLOTS};
pub use sentinel::{to_i64, to_ref_i64};
