//! The color-compatibility and forbidden-case predicate tests.

use grid_solver::gridgraph::Coord;
use grid_solver::gridgraph::GridGraph;

fn c(x: usize, y: usize) -> Coord {
    Coord { x, y }
}

#[test]
fn color_comp_odd_min() {
    // Two odd-parity coordinates of an odd grid belong to the minority
    // color and must not be color compatible.
    let my_grid_graph: GridGraph = GridGraph::new(5, 7);
    assert_eq!(my_grid_graph.are_color_compatible(c(3, 4), c(1, 6)), false);
}

#[test]
fn color_comp_odd_dif() {
    // Two different-parity coordinates of an odd grid must not be
    // color compatible.
    let my_grid_graph: GridGraph = GridGraph::new(5, 7);
    assert_eq!(my_grid_graph.are_color_compatible(c(2, 3), c(1, 5)), false);
}

#[test]
fn color_comp_odd_maj() {
    // Two even-parity coordinates of an odd grid belong to the
    // majority color and must be color compatible.
    let my_grid_graph: GridGraph = GridGraph::new(5, 7);
    assert_eq!(my_grid_graph.are_color_compatible(c(2, 2), c(4, 6)), true);
}

#[test]
fn color_comp_even_even() {
    // Two even-parity coordinates of an even grid must not be color
    // compatible.
    let my_grid_graph: GridGraph = GridGraph::new(5, 8);
    assert_eq!(my_grid_graph.are_color_compatible(c(2, 6), c(1, 7)), false);
}

#[test]
fn color_comp_even_dif() {
    // Two different-parity coordinates of an even grid must be color
    // compatible.
    let my_grid_graph: GridGraph = GridGraph::new(5, 8);
    assert_eq!(my_grid_graph.are_color_compatible(c(2, 3), c(1, 5)), true);
}

#[test]
fn color_comp_even_odd() {
    // Two odd-parity coordinates of an even grid must not be color
    // compatible.
    let my_grid_graph: GridGraph = GridGraph::new(6, 8);
    assert_eq!(my_grid_graph.are_color_compatible(c(3, 2), c(5, 6)), false);
}

#[test]
fn forbidden_case_1_width_part_forb() {
    // On a width-1 grid, one endpoint a corner and the other not.
    let my_grid_graph: GridGraph = GridGraph::new(1, 7);
    assert_eq!(my_grid_graph.is_forbidden(c(0, 0), c(0, 4)), true);
}

#[test]
fn forbidden_case_1_width_full_forb() {
    // On a width-1 grid, neither endpoint a corner.
    let my_grid_graph: GridGraph = GridGraph::new(1, 9);
    assert_eq!(my_grid_graph.is_forbidden(c(0, 5), c(0, 2)), true);
}

#[test]
fn forbidden_case_1_width_valid() {
    // On a width-1 grid, both endpoints corners.
    let my_grid_graph: GridGraph = GridGraph::new(1, 10);
    assert_eq!(my_grid_graph.is_forbidden(c(0, 0), c(0, 9)), false);
}

#[test]
fn forbidden_case_1_height_part_forb() {
    // On a height-1 grid, one endpoint a corner and the other not.
    let my_grid_graph: GridGraph = GridGraph::new(7, 1);
    assert_eq!(my_grid_graph.is_forbidden(c(4, 0), c(0, 0)), true);
}

#[test]
fn forbidden_case_1_height_full_forb() {
    // On a height-1 grid, neither endpoint a corner.
    let my_grid_graph: GridGraph = GridGraph::new(9, 1);
    assert_eq!(my_grid_graph.is_forbidden(c(5, 0), c(2, 0)), true);
}

#[test]
fn forbidden_case_1_height_valid() {
    // On a height-1 grid, both endpoints corners.
    let my_grid_graph: GridGraph = GridGraph::new(10, 1);
    assert_eq!(my_grid_graph.is_forbidden(c(0, 0), c(9, 0)), false);
}

#[test]
fn forbidden_case_2_width_valid() {
    // On a width-2 grid, endpoints without a non-boundary edge between
    // them.
    let my_grid_graph: GridGraph = GridGraph::new(2, 8);
    assert_eq!(my_grid_graph.is_forbidden(c(0, 7), c(1, 2)), false);
}

#[test]
fn forbidden_case_2_width_forb() {
    // On a width-2 grid, endpoints with a non-boundary edge between
    // them.
    let my_grid_graph: GridGraph = GridGraph::new(2, 12);
    assert_eq!(my_grid_graph.is_forbidden(c(0, 5), c(1, 5)), true);
}

#[test]
fn forbidden_case_2_height_valid() {
    // On a height-2 grid, endpoints without a non-boundary edge
    // between them.
    let my_grid_graph: GridGraph = GridGraph::new(11, 2);
    assert_eq!(my_grid_graph.is_forbidden(c(8, 1), c(6, 1)), false);
}

#[test]
fn forbidden_case_2_height_forb() {
    // On a height-2 grid, endpoints with a non-boundary edge between
    // them.
    let my_grid_graph: GridGraph = GridGraph::new(7, 2);
    assert_eq!(my_grid_graph.is_forbidden(c(3, 1), c(3, 0)), true);
}

#[test]
fn forbidden_case_3_width_valid() {
    // A width-3 instance outside the obstruction.
    let my_grid_graph: GridGraph = GridGraph::new(3, 12);
    assert_eq!(my_grid_graph.is_forbidden(c(0, 2), c(1, 6)), false);
}

#[test]
fn forbidden_case_3_width_forb() {
    // A width-3 instance inside the obstruction.
    let my_grid_graph: GridGraph = GridGraph::new(3, 12);
    assert_eq!(my_grid_graph.is_forbidden(c(0, 3), c(2, 6)), true);
}

#[test]
fn forbidden_case_3_height_valid() {
    // A height-3 instance outside the obstruction.
    let my_grid_graph: GridGraph = GridGraph::new(8, 3);
    assert_eq!(my_grid_graph.is_forbidden(c(4, 2), c(6, 1)), false);
}

#[test]
fn forbidden_case_3_height_forb() {
    // A height-3 instance inside the obstruction.
    let my_grid_graph: GridGraph = GridGraph::new(8, 3);
    assert_eq!(my_grid_graph.is_forbidden(c(5, 1), c(4, 1)), true);
}
