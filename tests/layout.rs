use cdshealpix::compass_point::{Cardinal, MainWind, Ordinal};
use cdshealpix_bridge::{external_edges_cells, neighbours, to_i64, to_ref_i64, CENTER_SLOT, NEIGHBOUR_SLOTS};

#[test]
fn sentinel_encoding() {
    assert_eq!(to_i64(Some(42)), 42);
    assert_eq!(to_i64(None), -1);
    let v = 7u64;
    assert_eq!(to_ref_i64(Some(&v)), 7);
    assert_eq!(to_ref_i64(None), -1);
}

#[test]
fn neighbours_of_first_base_cell() {
    let mut out = vec![0i64; NEIGHBOUR_SLOTS];
    neighbours(0, &[0], &mut out);
    assert_eq!(out[CENTER_SLOT], 0);
    assert!(out.iter().filter(|&&v| v == -1).count() >= 2);
}

#[test]
fn neighbours_layout_puts_east_in_slot_two() {
    let mut out = vec![0i64; NEIGHBOUR_SLOTS];
    neighbours(0, &[4], &mut out);
    assert_eq!(out[2], 5);
    assert_eq!(out[4], 4);
}

#[test]
fn neighbours_center_slot_is_the_cell() {
    let ipix: Vec<u64> = vec![0, 17, 100, 191];
    let mut out = vec![0i64; NEIGHBOUR_SLOTS * ipix.len()];
    neighbours(2, &ipix, &mut out);
    for (i, &h) in ipix.iter().enumerate() {
        assert_eq!(out[NEIGHBOUR_SLOTS * i + CENTER_SLOT], h as i64);
    }
}

#[test]
fn neighbours_of_interior_cell_all_exist() {
    let mut out = vec![0i64; NEIGHBOUR_SLOTS];
    neighbours(2, &[3], &mut out);
    assert!(out.iter().all(|&v| v >= 0));
}

#[test]
fn neighbours_match_the_index_map() {
    let mut out = vec![0i64; NEIGHBOUR_SLOTS];
    neighbours(3, &[300], &mut out);
    let map = cdshealpix::nested::neighbours(3, 300, false);
    let winds = [
        MainWind::S, MainWind::SE, MainWind::E, MainWind::SW, MainWind::C,
        MainWind::NE, MainWind::W, MainWind::NW, MainWind::N,
    ];
    for (s, w) in winds.iter().enumerate() {
        if s == CENTER_SLOT {
            assert_eq!(out[s], 300);
        } else {
            assert_eq!(out[s], map.get(*w).map(|&v| v as i64).unwrap_or(-1));
        }
    }
}

#[test]
fn neighbours_of_no_cells_writes_nothing() {
    let mut out: Vec<i64> = vec![];
    neighbours(5, &[], &mut out);
    assert!(out.is_empty());
}

#[test]
fn external_edges_cover_the_surrounding_cells() {
    let mut corners = vec![0i64; 4];
    let mut edges = vec![0u64; 16];
    assert!(external_edges_cells(1, 2, &[10], &mut corners, &mut edges));
    let mut all: Vec<u64> = corners.iter().filter(|&&c| c >= 0).map(|&c| c as u64).collect();
    all.extend(edges.iter().copied());
    all.sort();
    all.dedup();
    let expected: Vec<u64> = vec![85, 87, 93, 95, 117, 138, 139, 142, 143, 154, 176, 178, 184, 186, 415, 437, 439, 445, 447];
    assert_eq!(all, expected);
    assert_eq!(corners.iter().filter(|&&c| c == -1).count(), 1);
}

#[test]
fn external_edges_layout_follows_the_index_structure() {
    let ipix: Vec<u64> = vec![11, 30];
    let mut corners = vec![0i64; 8];
    let mut edges = vec![0u64; 2 * 4 * 2];
    assert!(external_edges_cells(1, 1, &ipix, &mut corners, &mut edges));
    for (i, &h) in ipix.iter().enumerate() {
        let ee = cdshealpix::nested::external_edge_struct(1, h, 1);
        let cs = [Cardinal::S, Cardinal::E, Cardinal::N, Cardinal::W];
        for (c, card) in cs.iter().enumerate() {
            assert_eq!(corners[4 * i + c], ee.get_corner(card).map(|v| v as i64).unwrap_or(-1));
        }
        let os = [Ordinal::SE, Ordinal::NE, Ordinal::NW, Ordinal::SW];
        for (s, ord) in os.iter().enumerate() {
            assert_eq!(&edges[8 * i + 2 * s..8 * i + 2 * s + 2], ee.get_edge(ord));
        }
    }
}
