use sudoku_csp::names::{cell_to_coords, coords_to_cell, cross};
use sudoku_csp::topology::{is_peer_exec, peers_of, unit_cells, units_of};

#[test]
fn peer_sets_have_twenty_members() {
    for c in 0..81 {
        let ps = peers_of(c);
        assert_eq!(ps.len(), 20);
        for k1 in 0..20 {
            assert!(ps[k1] < 81);
            assert_ne!(ps[k1], c);
            for k2 in 0..20 {
                if k1 != k2 {
                    assert_ne!(ps[k1], ps[k2]);
                }
            }
        }
    }
}

#[test]
fn peer_membership_is_symmetric() {
    for a in 0..81 {
        for b in 0..81 {
            assert_eq!(is_peer_exec(a, b), is_peer_exec(b, a));
        }
    }
}

#[test]
fn peer_list_matches_peer_test() {
    for c in 0..81 {
        let ps = peers_of(c);
        for b in 0..81 {
            let in_list = ps.iter().any(|&p| p == b);
            assert_eq!(in_list, is_peer_exec(c, b));
        }
    }
}

#[test]
fn units_have_nine_distinct_cells() {
    for u in 0..27 {
        let uc = unit_cells(u);
        assert_eq!(uc.len(), 9);
        for k1 in 0..9 {
            assert!(uc[k1] < 81);
            for k2 in 0..9 {
                if k1 != k2 {
                    assert_ne!(uc[k1], uc[k2]);
                }
            }
        }
    }
}

#[test]
fn each_cell_lies_in_its_three_units() {
    for c in 0..81 {
        let us = units_of(c);
        assert_eq!(us.len(), 3);
        for &u in us.iter() {
            let uc = unit_cells(u);
            assert!(uc.iter().any(|&x| x == c));
        }
    }
}

#[test]
fn cell_names_round_trip() {
    assert_eq!(coords_to_cell(0, 0), "A1");
    assert_eq!(coords_to_cell(8, 8), "I9");
    assert_eq!(coords_to_cell(2, 6), "C7");
    for row in 0..9 {
        for col in 0..9 {
            let name = coords_to_cell(row, col);
            let (r2, c2) = cell_to_coords(&name);
            assert_eq!((row, col), (r2, c2));
        }
    }
}

#[test]
fn cross_builds_all_pairs_in_row_major_order() {
    let a = vec!['A', 'B'];
    let b = vec!['1', '2', '3'];
    let v = cross(&a, &b);
    assert_eq!(v.len(), 6);
    assert_eq!(v[0], "A1");
    assert_eq!(v[1], "A2");
    assert_eq!(v[2], "A3");
    assert_eq!(v[3], "B1");
    assert_eq!(v[5], "B3");
}
