//! End-to-end solver behavior: the concrete scenarios, the
//! solve-iff-acceptable sweep, strip validity, and the reconstruction
//! round trip.

use grid_solver::GridError;
use grid_solver::gridgraph::Coord;
use grid_solver::gridgraph::GridGraph;
use grid_solver::gridpath::GridPath;
use grid_solver::gridproblem::GridProblem;

fn c(x: usize, y: usize) -> Coord {
    Coord { x, y }
}

fn assert_hamiltonian(p: &GridPath, n: usize, m: usize, s: Coord, t: Coord) {
    let vo = &p.vertex_order;
    assert_eq!(p.get_width(), n);
    assert_eq!(p.get_height(), m);
    assert_eq!(vo.len(), n * m, "path must cover every vertex exactly once");
    assert_eq!(vo[0], s);
    assert_eq!(vo[vo.len() - 1], t);
    for v in vo.iter() {
        assert!(v.x < n && v.y < m, "vertex out of bounds");
    }
    for i in 1..vo.len() {
        let dx = if vo[i].x >= vo[i - 1].x { vo[i].x - vo[i - 1].x } else { vo[i - 1].x - vo[i].x };
        let dy = if vo[i].y >= vo[i - 1].y { vo[i].y - vo[i - 1].y } else { vo[i - 1].y - vo[i].y };
        assert_eq!(dx + dy, 1, "consecutive vertices not adjacent");
    }
    for i in 0..vo.len() {
        for j in (i + 1)..vo.len() {
            assert!(vo[i] != vo[j], "repeated vertex");
        }
    }
}

#[test]
fn solve_prime_4_by_5_exact() {
    let mut problem = GridProblem::new(4, 5, c(1, 1), c(0, 1)).unwrap();
    let path = problem.solve().expect("the 4 by 5 prime case must solve");
    let expected = vec![
        c(1, 1),
        c(1, 2),
        c(0, 2),
        c(0, 3),
        c(0, 4),
        c(1, 4),
        c(1, 3),
        c(2, 3),
        c(2, 4),
        c(3, 4),
        c(3, 3),
        c(3, 2),
        c(2, 2),
        c(2, 1),
        c(3, 1),
        c(3, 0),
        c(2, 0),
        c(1, 0),
        c(0, 0),
        c(0, 1),
    ];
    assert_eq!(path.vertex_order, expected);
}

#[test]
fn solve_prime_3_by_3_exact() {
    let mut problem = GridProblem::new(3, 3, c(0, 0), c(0, 2)).unwrap();
    let path = problem.solve().expect("the 3 by 3 prime case must solve");
    let expected = vec![
        c(0, 0),
        c(1, 0),
        c(2, 0),
        c(2, 1),
        c(2, 2),
        c(1, 2),
        c(1, 1),
        c(0, 1),
        c(0, 2),
    ];
    assert_eq!(path.vertex_order, expected);
}

#[test]
fn solve_linear_1_by_10() {
    let mut problem = GridProblem::new(1, 10, c(0, 0), c(0, 9)).unwrap();
    let path = problem.solve().expect("a line between its two ends must solve");
    let expected: Vec<Coord> = (0..10).map(|y| c(0, y)).collect();
    assert_eq!(path.vertex_order, expected);
}

#[test]
fn solve_linear_rejects_interior_endpoint() {
    let mut problem = GridProblem::new(1, 10, c(0, 0), c(0, 5)).unwrap();
    assert!(problem.solve().is_none());
}

#[test]
fn solve_8_by_9_strips_down_to_prime() {
    let mut problem = GridProblem::new(8, 9, c(3, 3), c(2, 3)).unwrap();
    let path = problem.solve().expect("the 8 by 9 instance must solve");
    assert_hamiltonian(&path, 8, 9, c(3, 3), c(2, 3));
}

#[test]
fn solve_forbidden_2_by_12() {
    let mut problem = GridProblem::new(2, 12, c(0, 5), c(1, 5)).unwrap();
    assert!(problem.solve().is_none());
}

#[test]
fn solve_iff_acceptable_up_to_6_by_6() {
    // A path comes back exactly for the color-compatible, unforbidden
    // instances, and every returned path is a full Hamiltonian path.
    for n in 1..=6usize {
        for m in 1..=6usize {
            let g = GridGraph::new(n, m);
            for sx in 0..n {
                for sy in 0..m {
                    for tx in 0..n {
                        for ty in 0..m {
                            let s = c(sx, sy);
                            let t = c(tx, ty);
                            if s == t {
                                continue;
                            }
                            let acceptable = g.are_color_compatible(s, t) && !g.is_forbidden(s, t);
                            let mut problem = GridProblem::new(n, m, s, t).unwrap();
                            match problem.solve() {
                                Some(path) => {
                                    assert!(
                                        acceptable,
                                        "solved an unacceptable instance {} {} {:?} {:?}",
                                        n, m, s, t
                                    );
                                    assert_hamiltonian(&path, n, m, s, t);
                                },
                                None => {
                                    assert!(
                                        !acceptable,
                                        "failed an acceptable instance {} {} {:?} {:?}",
                                        n, m, s, t
                                    );
                                },
                            }
                        }
                    }
                }
            }
        }
    }
}

#[test]
fn solve_restores_the_problem() {
    let mut problem = GridProblem::new(8, 9, c(3, 3), c(2, 3)).unwrap();
    problem.solve().expect("the 8 by 9 instance must solve");
    assert_eq!(problem.grid_graph.get_width(), 8);
    assert_eq!(problem.grid_graph.get_height(), 9);
    assert_eq!(problem.start_coords, c(3, 3));
    assert_eq!(problem.end_coords, c(2, 3));
    assert_eq!(problem.extensions.len(), 0);
}

#[test]
fn strip_keeps_problem_acceptable() {
    // Every successful strip leaves an acceptable problem behind.
    let mut problem = GridProblem::new(8, 9, c(3, 3), c(2, 3)).unwrap();
    assert!(problem.is_acceptable());
    let mut strips = 0usize;
    while problem.strip() {
        strips += 1;
        assert!(problem.is_acceptable(), "strip left an unacceptable problem");
    }
    assert!(strips > 0, "the 8 by 9 instance should strip at least once");
}

#[test]
fn strip_sides_keep_problem_acceptable() {
    let mut problem = GridProblem::new(9, 9, c(4, 4), c(2, 4)).unwrap();
    assert!(problem.is_acceptable());
    loop {
        let stripped = if problem.strip_right() {
            true
        } else if problem.strip_up() {
            true
        } else if problem.strip_left() {
            true
        } else if problem.strip_down() {
            true
        } else {
            false
        };
        if !stripped {
            break;
        }
        assert!(problem.is_acceptable());
    }
}

#[test]
fn strip_then_reconstruct_roundtrip() {
    // Reconstruction restores the original dimensions and endpoints
    // after any run of successful strips.
    let mut problem = GridProblem::new(8, 9, c(3, 3), c(2, 3)).unwrap();
    let mut strips = 0usize;
    while problem.strip() {
        strips += 1;
    }
    assert!(strips > 0);
    assert!(problem.extensions.len() == strips);
    problem.reconstruct();
    assert_eq!(problem.grid_graph.get_width(), 8);
    assert_eq!(problem.grid_graph.get_height(), 9);
    assert_eq!(problem.start_coords, c(3, 3));
    assert_eq!(problem.end_coords, c(2, 3));
    assert_eq!(problem.extensions.len(), 0);
}

#[test]
fn reconstruct_without_strips_is_identity() {
    let mut problem = GridProblem::new(5, 4, c(1, 1), c(2, 1)).unwrap();
    problem.reconstruct();
    assert_eq!(problem.grid_graph.get_width(), 5);
    assert_eq!(problem.grid_graph.get_height(), 4);
    assert_eq!(problem.start_coords, c(1, 1));
    assert_eq!(problem.end_coords, c(2, 1));
}

#[test]
fn problem_new_rejects_equal_endpoints() {
    let r = GridProblem::new(4, 4, c(2, 2), c(2, 2));
    assert!(matches!(r, Err(GridError::EqualEndpoints)));
}

#[test]
fn problem_new_rejects_out_of_bounds() {
    let r = GridProblem::new(4, 4, c(0, 0), c(4, 0));
    assert!(matches!(r, Err(GridError::OutOfBounds)));
    let r = GridProblem::new(4, 4, c(0, 4), c(1, 0));
    assert!(matches!(r, Err(GridError::OutOfBounds)));
}

#[test]
fn problem_new_accepts_corner_endpoints() {
    let r = GridProblem::new(5, 5, c(4, 4), c(0, 0));
    assert!(r.is_ok());
}

#[test]
fn can_be_split_matches_split() {
    let problem = GridProblem::new(6, 6, c(0, 0), c(2, 3)).unwrap();
    assert_eq!(problem.can_be_split_horizontally(), problem.split_horizontally().is_some());
    assert_eq!(problem.can_be_split_vertically(), problem.split_vertically().is_some());
}

#[test]
fn split_halves_are_acceptable() {
    let problem = GridProblem::new(6, 6, c(0, 0), c(2, 3)).unwrap();
    if let Some((lower, upper)) = problem.split_horizontally() {
        assert!(lower.is_acceptable());
        assert!(upper.is_acceptable());
        assert_eq!(
            lower.grid_graph.get_height() + upper.grid_graph.get_height(),
            problem.grid_graph.get_height()
        );
        assert_eq!(lower.grid_graph.get_width(), problem.grid_graph.get_width());
    } else {
        panic!("expected a horizontal split for 6 by 6 with differing rows");
    }
}
