//! Exhaustive comparison of the color and forbidden predicates against
//! straightforward reference formulations, over every pair of vertices
//! in every grid up to 5 by 5.

use grid_solver::gridgraph::Coord;
use grid_solver::gridgraph::GridGraph;

fn ref_parity(v: (usize, usize)) -> usize {
    (v.0 + v.1) % 2
}

fn ref_color_compatible(n: usize, m: usize, v: (usize, usize), w: (usize, usize)) -> bool {
    if (n * m) % 2 == 1 {
        ref_parity(v) == 0 && ref_parity(w) == 0
    } else {
        ref_parity(v) != ref_parity(w)
    }
}

fn ref_corner(n: usize, m: usize, v: (usize, usize)) -> bool {
    (v.0 == 0 || v.0 == n - 1) && (v.1 == 0 || v.1 == m - 1)
}

fn ref_forbidden(n: usize, m: usize, v: (usize, usize), w: (usize, usize)) -> bool {
    if n == 1 || m == 1 {
        let origin = (0, 0);
        let far = if n == 1 { (0, m - 1) } else { (n - 1, 0) };
        return !((v == origin || w == origin) && (v == far || w == far));
    }
    if n == 2 || m == 2 {
        let shares = if n == 2 { v.1 == w.1 } else { v.0 == w.0 };
        return !ref_corner(n, m, v) && !ref_corner(n, m, w) && shares;
    }
    if n == 3 || m == 3 {
        let thick = if n == 3 { m } else { n };
        let a = if n == 3 { v.1 } else { v.0 };
        let b = if n == 3 { w.1 } else { w.0 };
        let u = if n == 3 { v.0 } else { v.1 };
        let d = if a >= b { a - b } else { b - a };
        let dist_ok = if u == 1 { d > 0 } else { d > 1 };
        let color_ok = if a > b { ref_parity(v) != 1 } else { ref_parity(v) != 0 };
        return thick % 2 == 0 && ref_parity(v) != ref_parity(w) && dist_ok && color_ok;
    }
    false
}

#[test]
fn predicate_tables_to_5_by_5() {
    for n in 1..=5usize {
        for m in 1..=5usize {
            let g = GridGraph::new(n, m);
            for vx in 0..n {
                for vy in 0..m {
                    for wx in 0..n {
                        for wy in 0..m {
                            let v = Coord { x: vx, y: vy };
                            let w = Coord { x: wx, y: wy };
                            assert_eq!(
                                g.are_color_compatible(v, w),
                                ref_color_compatible(n, m, (vx, vy), (wx, wy)),
                                "color compatibility mismatch at {} {} {:?} {:?}",
                                n,
                                m,
                                (vx, vy),
                                (wx, wy)
                            );
                            assert_eq!(
                                g.is_forbidden(v, w),
                                ref_forbidden(n, m, (vx, vy), (wx, wy)),
                                "forbidden mismatch at {} {} {:?} {:?}",
                                n,
                                m,
                                (vx, vy),
                                (wx, wy)
                            );
                            assert_eq!(g.is_corner_vertex(v), ref_corner(n, m, (vx, vy)));
                        }
                    }
                }
            }
        }
    }
}
