//! Path construction, the band extensions, and the prime table.

use grid_solver::GridError;
use grid_solver::gridextension::GridExtension;
use grid_solver::gridgraph::Coord;
use grid_solver::gridpath::GridPath;

fn c(x: usize, y: usize) -> Coord {
    Coord { x, y }
}

fn path_of(n: usize, m: usize, coords: &[(usize, usize)]) -> GridPath {
    let vo: Vec<Coord> = coords.iter().map(|&(x, y)| c(x, y)).collect();
    GridPath::new(n, m, vo).expect("expected a valid path")
}

fn assert_valid_path(p: &GridPath) {
    let vo = &p.vertex_order;
    for v in vo.iter() {
        assert!(v.x < p.n && v.y < p.m, "vertex out of bounds");
    }
    for i in 1..vo.len() {
        let dx = if vo[i].x >= vo[i - 1].x { vo[i].x - vo[i - 1].x } else { vo[i - 1].x - vo[i].x };
        let dy = if vo[i].y >= vo[i - 1].y { vo[i].y - vo[i - 1].y } else { vo[i - 1].y - vo[i].y };
        assert_eq!(dx + dy, 1, "consecutive vertices not adjacent");
    }
    for i in 0..vo.len() {
        for j in (i + 1)..vo.len() {
            assert!(vo[i] != vo[j], "repeated vertex");
        }
    }
}

#[test]
fn path_new_accepts_valid_order() {
    let p = GridPath::new(3, 2, vec![c(0, 0), c(0, 1), c(1, 1), c(2, 1), c(2, 0), c(1, 0)]);
    let p = p.expect("a valid snake over 3 by 2");
    assert_eq!(p.get_width(), 3);
    assert_eq!(p.get_height(), 2);
    assert_eq!(p.vertex_order.len(), 6);
}

#[test]
fn path_new_rejects_nonadjacent() {
    let p = GridPath::new(3, 2, vec![c(0, 0), c(2, 0)]);
    assert!(p.is_none());
}

#[test]
fn path_new_rejects_repeated_vertex() {
    let p = GridPath::new(2, 2, vec![c(0, 0), c(0, 1), c(0, 0)]);
    assert!(p.is_none());
}

#[test]
fn path_new_rejects_out_of_bounds() {
    let p = GridPath::new(2, 2, vec![c(0, 1), c(0, 2)]);
    assert!(p.is_none());
}

#[test]
fn extend_up_grows_height_by_two() {
    let mut p = path_of(2, 2, &[(0, 0), (1, 0), (1, 1), (0, 1)]);
    let r = p.extend(GridExtension::Up);
    assert!(r.is_ok());
    assert_eq!((p.get_width(), p.get_height()), (2, 4));
    assert_eq!(p.vertex_order.len(), 4 + 2 * 2);
    assert_eq!(p.vertex_order[0], c(0, 0));
    assert_eq!(p.vertex_order[p.vertex_order.len() - 1], c(0, 1));
    assert_valid_path(&p);
}

#[test]
fn extend_down_grows_height_and_shifts() {
    let mut p = path_of(2, 2, &[(0, 0), (1, 0), (1, 1), (0, 1)]);
    let r = p.extend(GridExtension::Down);
    assert!(r.is_ok());
    assert_eq!((p.get_width(), p.get_height()), (2, 4));
    assert_eq!(p.vertex_order.len(), 4 + 2 * 2);
    assert_eq!(p.vertex_order[0], c(0, 2));
    assert_eq!(p.vertex_order[p.vertex_order.len() - 1], c(0, 3));
    assert_valid_path(&p);
}

#[test]
fn extend_right_grows_width_by_two() {
    let mut p = path_of(2, 2, &[(0, 0), (1, 0), (1, 1), (0, 1)]);
    let r = p.extend(GridExtension::Right);
    assert!(r.is_ok());
    assert_eq!((p.get_width(), p.get_height()), (4, 2));
    assert_eq!(p.vertex_order.len(), 4 + 2 * 2);
    assert_eq!(p.vertex_order[0], c(0, 0));
    assert_valid_path(&p);
}

#[test]
fn extend_left_grows_width_and_shifts() {
    let mut p = path_of(2, 2, &[(1, 0), (0, 0), (0, 1), (1, 1)]);
    let r = p.extend(GridExtension::Left);
    assert!(r.is_ok());
    assert_eq!((p.get_width(), p.get_height()), (4, 2));
    assert_eq!(p.vertex_order.len(), 4 + 2 * 2);
    assert_eq!(p.vertex_order[0], c(3, 0));
    assert_eq!(p.vertex_order[p.vertex_order.len() - 1], c(3, 1));
    assert_valid_path(&p);
}

#[test]
fn extend_left_needs_boundary_edge() {
    // This square's path has no edge inside its left column.
    let mut p = path_of(2, 2, &[(0, 0), (1, 0), (1, 1), (0, 1)]);
    let r = p.extend(GridExtension::Left);
    assert_eq!(r, Err(GridError::NoBoundaryEdge));
    assert_eq!((p.get_width(), p.get_height()), (2, 2));
}

#[test]
fn extend_up_needs_boundary_edge() {
    // A vertical line touches the top row in a single vertex, so no
    // upper boundary edge exists and the path must stay unchanged.
    let mut p = path_of(1, 3, &[(0, 0), (0, 1), (0, 2)]);
    let r = p.extend(GridExtension::Up);
    assert_eq!(r, Err(GridError::NoBoundaryEdge));
    assert_eq!((p.get_width(), p.get_height()), (1, 3));
    assert_eq!(p.vertex_order.len(), 3);
}

#[test]
fn extend_right_on_vertical_line() {
    let mut p = path_of(1, 3, &[(0, 0), (0, 1), (0, 2)]);
    let r = p.extend(GridExtension::Right);
    assert!(r.is_ok());
    assert_eq!((p.get_width(), p.get_height()), (3, 3));
    assert_eq!(p.vertex_order.len(), 3 + 2 * 3);
    assert_valid_path(&p);
}

#[test]
fn extend_many_applies_in_order() {
    let mut p = path_of(2, 2, &[(0, 0), (1, 0), (1, 1), (0, 1)]);
    let r = p.extend_many(&vec![GridExtension::Up, GridExtension::Right]);
    assert!(r.is_ok());
    assert_eq!((p.get_width(), p.get_height()), (4, 4));
    assert_eq!(p.vertex_order.len(), 4 + 2 * 2 + 2 * 4);
    assert_valid_path(&p);
}

#[test]
fn extend_many_empty_is_identity() {
    let mut p = path_of(2, 2, &[(0, 0), (1, 0), (1, 1), (0, 1)]);
    let before = p.vertex_order.clone();
    let r = p.extend_many(&Vec::new());
    assert!(r.is_ok());
    assert_eq!((p.get_width(), p.get_height()), (2, 2));
    assert_eq!(p.vertex_order, before);
}

#[test]
fn get_prime_returns_stored_path() {
    let p = GridPath::get_prime(4, 5, c(1, 1), c(0, 1)).expect("a stored 4 by 5 solution");
    let expected = vec![
        c(1, 1),
        c(1, 2),
        c(0, 2),
        c(0, 3),
        c(0, 4),
        c(1, 4),
        c(1, 3),
        c(2, 3),
        c(2, 4),
        c(3, 4),
        c(3, 3),
        c(3, 2),
        c(2, 2),
        c(2, 1),
        c(3, 1),
        c(3, 0),
        c(2, 0),
        c(1, 0),
        c(0, 0),
        c(0, 1),
    ];
    assert_eq!(p.vertex_order, expected);
    assert_eq!((p.get_width(), p.get_height()), (4, 5));
}

#[test]
fn get_prime_misses_unknown_dimensions() {
    assert!(GridPath::get_prime(6, 6, c(0, 0), c(1, 0)).is_none());
}

#[test]
fn is_prime_matches_get_prime() {
    for n in 1..=6usize {
        for m in 1..=6usize {
            for sx in 0..n {
                for sy in 0..m {
                    for tx in 0..n {
                        for ty in 0..m {
                            let s = c(sx, sy);
                            let t = c(tx, ty);
                            assert_eq!(
                                GridPath::is_prime(n, m, s, t),
                                GridPath::get_prime(n, m, s, t).is_some()
                            );
                        }
                    }
                }
            }
        }
    }
}

#[test]
fn is_prime_rejects_same_color_endpoints() {
    assert!(!GridPath::is_prime(2, 2, c(0, 0), c(1, 1)));
    assert!(GridPath::is_prime(2, 2, c(0, 0), c(1, 0)));
}

#[test]
fn prime_table_rows_are_hamiltonian() {
    // Every stored path of the prime dimensions must be a full valid
    // path of its grid.
    let dims = [(2usize, 2usize), (2, 3), (3, 2), (3, 3), (4, 5), (5, 4)];
    for &(n, m) in dims.iter() {
        let mut hits = 0usize;
        for sx in 0..n {
            for sy in 0..m {
                for tx in 0..n {
                    for ty in 0..m {
                        if let Some(p) = GridPath::get_prime(n, m, c(sx, sy), c(tx, ty)) {
                            hits += 1;
                            assert_eq!(p.vertex_order.len(), n * m);
                            assert_eq!(p.vertex_order[0], c(sx, sy));
                            assert_eq!(p.vertex_order[n * m - 1], c(tx, ty));
                            assert_valid_path(&p);
                        }
                    }
                }
            }
        }
        assert!(hits > 0, "no stored paths found for {} by {}", n, m);
    }
}
