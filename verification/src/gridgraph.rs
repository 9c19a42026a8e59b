//! The grid itself: dimensions, vertex coordinates, and the color and
//! boundary predicates that decide whether a Hamiltonian path between
//! two vertices can exist at all.

use vstd::prelude::*;

verus! {

/// A vertex of the grid. `x` grows to the right and `y` grows upward,
/// with `(0, 0)` the bottom-left corner.
#[derive(Clone, Copy, PartialEq, Eq, Structural, Debug)]
pub struct Coord {
    pub x: usize,
    pub y: usize,
}

/// The color class of a vertex: the parity of the coordinate sum.
pub open spec fn parity(c: Coord) -> int {
    (c.x + c.y) % 2
}

/// Whether `c` lies inside an `n` by `m` grid.
pub open spec fn in_bounds(n: int, m: int, c: Coord) -> bool {
    c.x < n && c.y < m
}

/// Whether the two endpoints belong to color classes that admit a
/// Hamiltonian path. When the vertex count is odd only the majority
/// class (parity zero) qualifies, and both endpoints must lie in it;
/// when it is even the endpoints must lie in different classes.
pub open spec fn color_compatible(n: int, m: int, v: Coord, w: Coord) -> bool {
    if (n * m) % 2 == 1 {
        parity(v) == 0 && parity(w) == 0
    } else {
        parity(v) != parity(w)
    }
}

/// Whether `v` is one of the four extreme corner vertices.
pub open spec fn is_corner(n: int, m: int, v: Coord) -> bool {
    (v.x == 0 || v.x == n - 1) && (v.y == 0 || v.y == m - 1)
}

/// The forbidden condition when a dimension equals 1: the grid is a
/// line, and the endpoints must be exactly the two ends of that line.
pub open spec fn forbidden_case_1(n: int, m: int, v: Coord, w: Coord) -> bool {
    let origin = Coord { x: 0, y: 0 };
    let far = if n == 1 {
        Coord { x: 0, y: (m - 1) as usize }
    } else {
        Coord { x: (n - 1) as usize, y: 0 }
    };
    !((v == origin || w == origin) && (v == far || w == far))
}

/// The forbidden condition when a dimension equals 2: two interior
/// vertices that face each other across the thin dimension have no
/// non-boundary edge between them.
pub open spec fn forbidden_case_2(n: int, m: int, v: Coord, w: Coord) -> bool {
    !is_corner(n, m, v) && !is_corner(n, m, w) && (if n == 2 {
        v.y == w.y
    } else {
        v.x == w.x
    })
}

/// The forbidden condition when a dimension equals 3, following the
/// Itai–Papadimitriou–Szwarcfiter obstruction for 3-wide grids with an
/// even thick dimension.
pub open spec fn forbidden_case_3(n: int, m: int, v: Coord, w: Coord) -> bool {
    let l = if n == 3 {
        m
    } else {
        n
    };
    let a = if n == 3 {
        v.y as int
    } else {
        v.x as int
    };
    let b = if n == 3 {
        w.y as int
    } else {
        w.x as int
    };
    let u = if n == 3 {
        v.x as int
    } else {
        v.y as int
    };
    let d = if a >= b {
        a - b
    } else {
        b - a
    };
    &&& l % 2 == 0
    &&& parity(v) != parity(w)
    &&& if u == 1 {
        d > 0
    } else {
        d > 1
    }
    &&& if a > b {
        parity(v) != 1
    } else {
        parity(v) != 0
    }
}

/// Whether the instance with endpoints `v` and `w` is one of the
/// forbidden cases, dispatching on the thinnest dimension.
pub open spec fn forbidden(n: int, m: int, v: Coord, w: Coord) -> bool {
    if n == 1 || m == 1 {
        forbidden_case_1(n, m, v, w)
    } else if n == 2 || m == 2 {
        forbidden_case_2(n, m, v, w)
    } else if n == 3 || m == 3 {
        forbidden_case_3(n, m, v, w)
    } else {
        false
    }
}

/// Whether a Hamiltonian path between `s` and `t` can exist: the
/// endpoints are color compatible and the instance is not forbidden.
pub open spec fn acceptable(n: int, m: int, s: Coord, t: Coord) -> bool {
    color_compatible(n, m, s, t) && !forbidden(n, m, s, t)
}

/// An `n` by `m` grid of vertices where each `(x, y)` is adjacent to
/// `(x ± 1, y)` and `(x, y ± 1)` whenever those lie in the grid.
#[derive(Clone, Copy, PartialEq, Eq, Structural, Debug)]
pub struct GridGraph {
    pub n: usize,
    pub m: usize,
}

impl GridGraph {
    /// Both dimensions are at least 1.
    pub open spec fn wf(&self) -> bool {
        self.n >= 1 && self.m >= 1
    }

    /// Initialize a grid graph from its dimensions.
    pub fn new(n: usize, m: usize) -> (g: GridGraph)
        requires
            n >= 1,
            m >= 1,
        ensures
            g.n == n,
            g.m == m,
            g.wf(),
    {
        GridGraph { n, m }
    }

    /// Get the width of the grid graph.
    pub fn get_width(&self) -> (r: usize)
        ensures
            r == self.n,
    {
        self.n
    }

    /// Get the height of the grid graph.
    pub fn get_height(&self) -> (r: usize)
        ensures
            r == self.m,
    {
        self.m
    }

    /// Compute the color class of a vertex.
    fn parity_of(c: Coord) -> (r: usize)
        ensures
            r == parity(c),
    {
        proof {
            vstd::arithmetic::div_mod::lemma_add_mod_noop(c.x as int, c.y as int, 2);
        }
        ((c.x % 2) + (c.y % 2)) % 2
    }

    /// Determine whether two vertices are color compatible.
    pub fn are_color_compatible(&self, v_coords: Coord, w_coords: Coord) -> (r: bool)
        requires
            self.wf(),
            in_bounds(self.n as int, self.m as int, v_coords),
            in_bounds(self.n as int, self.m as int, w_coords),
        ensures
            r == color_compatible(self.n as int, self.m as int, v_coords, w_coords),
    {
        let graph_is_odd: bool = (self.n % 2 == 1) && (self.m % 2 == 1);
        proof {
            vstd::arithmetic::div_mod::lemma_mul_mod_noop_general(
                self.n as int,
                self.m as int,
                2,
            );
        }
        if graph_is_odd {
            Self::parity_of(v_coords) == 0 && Self::parity_of(w_coords) == 0
        } else {
            Self::parity_of(v_coords) != Self::parity_of(w_coords)
        }
    }

    /// Determine whether the vertex at the given coordinates is a
    /// corner vertex.
    pub fn is_corner_vertex(&self, v_coords: Coord) -> (r: bool)
        requires
            self.wf(),
            in_bounds(self.n as int, self.m as int, v_coords),
        ensures
            r == is_corner(self.n as int, self.m as int, v_coords),
    {
        (v_coords.x == 0 || v_coords.x == self.n - 1) && (v_coords.y == 0 || v_coords.y == self.m
            - 1)
    }

    /// Decide the forbidden condition for grids with a dimension of 1.
    fn is_forbidden_case_1(&self, v_coords: Coord, w_coords: Coord) -> (r: bool)
        requires
            self.wf(),
        ensures
            r == forbidden_case_1(self.n as int, self.m as int, v_coords, w_coords),
    {
        let origin = Coord { x: 0, y: 0 };
        let far = if self.n == 1 {
            Coord { x: 0, y: self.m - 1 }
        } else {
            Coord { x: self.n - 1, y: 0 }
        };
        !((v_coords == origin || w_coords == origin) && (v_coords == far || w_coords == far))
    }

    /// Decide the forbidden condition for grids with a dimension of 2.
    fn is_forbidden_case_2(&self, v_coords: Coord, w_coords: Coord) -> (r: bool)
        requires
            self.wf(),
            in_bounds(self.n as int, self.m as int, v_coords),
            in_bounds(self.n as int, self.m as int, w_coords),
        ensures
            r == forbidden_case_2(self.n as int, self.m as int, v_coords, w_coords),
    {
        if self.is_corner_vertex(v_coords) || self.is_corner_vertex(w_coords) {
            return false;
        }
        if self.n == 2 {
            v_coords.y == w_coords.y
        } else {
            v_coords.x == w_coords.x
        }
    }

    /// Decide the forbidden condition for grids with a dimension of 3.
    fn is_forbidden_case_3(&self, v_coords: Coord, w_coords: Coord) -> (r: bool)
        requires
            self.wf(),
        ensures
            r == forbidden_case_3(self.n as int, self.m as int, v_coords, w_coords),
    {
        let is_n: bool = self.n == 3;
        let opp_dim: usize = if is_n {
            self.m
        } else {
            self.n
        };
        if opp_dim % 2 == 1 {
            return false;
        }
        if Self::parity_of(v_coords) == Self::parity_of(w_coords) {
            return false;
        }
        let a: usize = if is_n {
            v_coords.y
        } else {
            v_coords.x
        };
        let b: usize = if is_n {
            w_coords.y
        } else {
            w_coords.x
        };
        let opp_coord: usize = if is_n {
            v_coords.x
        } else {
            v_coords.y
        };
        let distance: usize = if a >= b {
            a - b
        } else {
            b - a
        };
        let is_dst_sat: bool = if opp_coord == 1 {
            distance > 0
        } else {
            distance > 1
        };
        if !is_dst_sat {
            return false;
        }
        if a > b {
            Self::parity_of(v_coords) != 1
        } else {
            Self::parity_of(v_coords) != 0
        }
    }

    /// Determine whether the Hamiltonian path problem between the two
    /// vertices is forbidden over this grid graph.
    pub fn is_forbidden(&self, v_coords: Coord, w_coords: Coord) -> (r: bool)
        requires
            self.wf(),
            in_bounds(self.n as int, self.m as int, v_coords),
            in_bounds(self.n as int, self.m as int, w_coords),
        ensures
            r == forbidden(self.n as int, self.m as int, v_coords, w_coords),
    {
        if self.n == 1 || self.m == 1 {
            self.is_forbidden_case_1(v_coords, w_coords)
        } else if self.n == 2 || self.m == 2 {
            self.is_forbidden_case_2(v_coords, w_coords)
        } else if self.n == 3 || self.m == 3 {
            self.is_forbidden_case_3(v_coords, w_coords)
        } else {
            false
        }
    }
}

} // verus!
