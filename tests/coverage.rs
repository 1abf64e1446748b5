use cdshealpix::nested::bmoc::BMOC;
use cdshealpix_bridge::coverage::{decode_entries, decode_entry};
use cdshealpix_bridge::{cells_as_is, coverage_arrays, flatten_cells, get_cells, get_flat_cells, Cell};

fn cell(hash: u64, depth: u8, is_full: bool) -> Cell {
    Cell { hash, depth, is_full }
}

#[test]
fn as_is_keeps_one_entry_per_cell_in_order() {
    let cells = vec![cell(5, 1, true), cell(1, 2, false), cell(40, 0, true)];
    let a = cells_as_is(&cells);
    assert_eq!(a.ipix, vec![5, 1, 40]);
    assert_eq!(a.depth, vec![1, 2, 0]);
    assert_eq!(a.fully_covered, vec![true, false, true]);
    assert_eq!(a.len(), 3);
}

#[test]
fn as_is_of_nothing_is_empty() {
    let a = cells_as_is(&[]);
    assert!(a.ipix.is_empty() && a.depth.is_empty() && a.fully_covered.is_empty());
}

#[test]
fn flat_expands_each_cell_in_order() {
    let cells = vec![cell(5, 1, true), cell(1, 2, false)];
    let a = flatten_cells(&cells, 2).unwrap();
    assert_eq!(a.ipix, vec![20, 21, 22, 23, 1]);
    assert_eq!(a.depth, vec![2, 2, 2, 2, 2]);
    assert_eq!(a.fully_covered, vec![true, true, true, true, false]);
}

#[test]
fn flat_cell_at_max_depth_gives_one_entry() {
    let a = flatten_cells(&[cell(7, 3, false)], 3).unwrap();
    assert_eq!(a.ipix, vec![7]);
    assert_eq!(a.depth, vec![3]);
    assert_eq!(a.fully_covered, vec![false]);
}

#[test]
fn flat_count_is_four_to_the_level_gap() {
    let a = flatten_cells(&[cell(11, 0, true)], 3).unwrap();
    assert_eq!(a.len(), 64);
    assert!(a.fully_covered.iter().all(|&f| f));
    assert!(a.depth.iter().all(|&d| d == 3));
    assert_eq!(a.ipix[0], 11 * 64);
    assert_eq!(a.ipix[63], 11 * 64 + 63);
    let b = flatten_cells(&[cell(2, 1, false)], 4).unwrap();
    assert_eq!(b.len(), 64);
    assert!(b.fully_covered.iter().all(|&f| !f));
}

#[test]
fn flat_is_deterministic() {
    let cells = vec![cell(3, 0, false), cell(100, 3, true), cell(9, 2, true)];
    let a = flatten_cells(&cells, 3).unwrap();
    let b = flatten_cells(&cells, 3).unwrap();
    assert_eq!(a.ipix, b.ipix);
    assert_eq!(a.depth, b.depth);
    assert_eq!(a.fully_covered, b.fully_covered);
}

#[test]
fn flat_reaggregates_to_the_same_cells() {
    let cells = vec![cell(3, 0, false), cell(100, 3, true), cell(9, 2, true)];
    let d: u8 = 3;
    let a = flatten_cells(&cells, d).unwrap();
    let mut pos = 0usize;
    for c in &cells {
        let n = 1usize << (2 * (d - c.depth));
        for k in 0..n {
            assert_eq!(a.ipix[pos + k] >> (2 * (d - c.depth)), c.hash);
            assert_eq!(a.fully_covered[pos + k], c.is_full);
        }
        pos += n;
    }
    assert_eq!(pos, a.len());
}

#[test]
fn flat_of_nothing_is_empty() {
    let a = flatten_cells(&[], 5).unwrap();
    assert_eq!(a.len(), 0);
}

#[test]
fn flat_rejects_cell_deeper_than_max() {
    assert!(flatten_cells(&[cell(1, 3, true)], 2).is_none());
}

#[test]
fn flat_rejects_index_outside_its_level() {
    assert!(flatten_cells(&[cell(48, 1, true)], 2).is_none());
    assert!(flatten_cells(&[cell(47, 1, true)], 2).is_some());
    assert!(flatten_cells(&[cell(12, 0, true)], 0).is_none());
}

#[test]
fn flat_rejects_depth_beyond_deepest_level() {
    assert!(flatten_cells(&[cell(0, 0, true)], 30).is_none());
}

#[test]
fn flat_at_deepest_level_reaches_last_index() {
    let a = flatten_cells(&[cell(11, 28, true)], 29).unwrap();
    assert_eq!(a.ipix, vec![44, 45, 46, 47]);
    let last = 12u64 * (1u64 << 58) - 1;
    let b = flatten_cells(&[cell(last, 29, false)], 29).unwrap();
    assert_eq!(b.ipix, vec![last]);
}

#[test]
fn cone_query_as_is_contains_the_center() {
    let bmoc = cdshealpix::nested::cone_coverage_approx_custom(4, 2, 0.0, 0.0, 0.01);
    let a = get_cells(&bmoc).unwrap();
    assert!(a.len() > 0);
    assert!(a.len() < 20);
    let found = (0..a.len()).any(|i| {
        a.ipix[i] == cdshealpix::nested::hash(a.depth[i], 0.0, 0.0)
    });
    assert!(found);
}

#[test]
fn cone_query_flat_matches_the_index_expansion() {
    let bmoc = cdshealpix::nested::cone_coverage_approx_custom(3, 2, 1.0, 0.5, 0.2);
    let a = get_flat_cells(&bmoc).unwrap();
    assert_eq!(a.len(), bmoc.deep_size());
    let expected: Vec<(u64, u8, bool)> =
        bmoc.flat_iter_cell().map(|c| (c.hash, c.depth, c.is_full)).collect();
    for (i, e) in expected.iter().enumerate() {
        assert_eq!((a.ipix[i], a.depth[i], a.fully_covered[i]), *e);
    }
    let as_is = get_cells(&bmoc).unwrap();
    assert_eq!(as_is.len(), bmoc.size());
    assert!(as_is.len() <= a.len());
}

#[test]
fn coverage_arrays_selects_the_encoding() {
    let bmoc = cdshealpix::nested::cone_coverage_approx_custom(3, 2, 1.0, 0.5, 0.2);
    let flat = coverage_arrays(&bmoc, true).unwrap();
    let as_is = coverage_arrays(&bmoc, false).unwrap();
    assert_eq!(flat.ipix, get_flat_cells(&bmoc).unwrap().ipix);
    assert_eq!(as_is.ipix, get_cells(&bmoc).unwrap().ipix);
    assert_eq!(as_is.depth, get_cells(&bmoc).unwrap().depth);
}

#[test]
fn decode_reads_flag_level_and_index() {
    // index 5 at depth 1 under max depth 2: 5 << 4 | marker << 3 | flag
    let raw = (5u64 << 4) | (1 << 3) | 1;
    let c = decode_entry(raw, 2).unwrap();
    assert_eq!((c.hash, c.depth, c.is_full), (5, 1, true));
    let raw = (7u64 << 2) | (1 << 1);
    let c = decode_entry(raw, 2).unwrap();
    assert_eq!((c.hash, c.depth, c.is_full), (7, 2, false));
}

#[test]
fn decode_rejects_malformed_entries() {
    assert!(decode_entry(0, 0).is_none());
    assert!(decode_entry(1, 5).is_none());
    // marker three levels up under max depth two
    assert!(decode_entry(1 << 7, 2).is_none());
    assert!(decode_entry(1 << 1, 30).is_none());
    assert!(decode_entries(&[1 << 1, 0], 0).is_none());
    assert_eq!(decode_entries(&[1 << 1, (3 << 2) | 3], 0).unwrap().len(), 2);
}

#[test]
fn malformed_coverage_result_is_rejected() {
    let bmoc = BMOC::create_unsafe(0, vec![0].into_boxed_slice());
    assert!(get_cells(&bmoc).is_none());
    assert!(get_flat_cells(&bmoc).is_none());
    assert!(coverage_arrays(&bmoc, false).is_none());
    assert!(coverage_arrays(&bmoc, true).is_none());
}

#[test]
fn decoded_cells_match_the_index_cells() {
    let bmoc = cdshealpix::nested::cone_coverage_approx_custom(5, 2, 2.0, -0.3, 0.15);
    let a = get_cells(&bmoc).unwrap();
    let expected: Vec<(u64, u8, bool)> = (&bmoc).into_iter().map(|c| (c.hash, c.depth, c.is_full)).collect();
    assert_eq!(a.len(), expected.len());
    for (i, e) in expected.iter().enumerate() {
        assert_eq!((a.ipix[i], a.depth[i], a.fully_covered[i]), *e);
    }
    assert!(a.ipix.iter().zip(bmoc.entries.iter()).any(|(h, r)| h != r));
}
