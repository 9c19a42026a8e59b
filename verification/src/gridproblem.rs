//! The top-level solver: acceptability, the strip-and-split recursion
//! over a mutable problem state, the prime-case lookup, and the
//! reconstruction that replays recorded strips as path extensions.

use vstd::prelude::*;

use crate::GridError;
use crate::gridextension::GridExtension;
use crate::gridextension::count_dir;
use crate::gridextension::count_h;
use crate::gridextension::count_v;
use crate::gridextension::lemma_count_dir_nonneg;
use crate::gridextension::lemma_count_dir_push;
use crate::gridextension::lemma_count_dir_reverse;
use crate::gridextension::lemma_count_dir_take_all;
use crate::gridextension::lemma_count_dir_take_succ;
use crate::gridgraph::Coord;
use crate::gridgraph::GridGraph;
use crate::gridgraph::acceptable;
use crate::gridgraph::in_bounds;
use crate::gridpath::GridPath;
use crate::gridpath::prime_row_matches;
use crate::gridpath::prime_table;
use crate::gridpath::stack_bottom_top;
use crate::gridpath::stack_top_bottom;
use crate::gridpath::coords_adjacent;

verus! {

/// The far end of a one-wide grid seen as a line starting at the
/// origin.
pub open spec fn line_far(n: int, m: int) -> Coord {
    if n == 1 {
        Coord { x: 0, y: (m - 1) as usize }
    } else {
        Coord { x: (n - 1) as usize, y: 0 }
    }
}

/// The line end opposite to `c` in a one-wide grid.
pub open spec fn line_other(n: int, m: int, c: Coord) -> Coord {
    if c == (Coord { x: 0, y: 0 }) {
        line_far(n, m)
    } else {
        Coord { x: 0, y: 0 }
    }
}

/// The vertex order of the straight-line path of a one-wide grid,
/// oriented so that its first vertex is `s`.
pub open spec fn line_order(n: int, m: int, s: Coord) -> Seq<Coord> {
    if n == 1 {
        if s.y == 0 {
            Seq::new(m as nat, |i: int| Coord { x: 0, y: i as usize })
        } else {
            Seq::new(m as nat, |i: int| Coord { x: 0, y: (m - 1 - i) as usize })
        }
    } else {
        if s.x == 0 {
            Seq::new(n as nat, |i: int| Coord { x: i as usize, y: 0 })
        } else {
            Seq::new(n as nat, |i: int| Coord { x: (n - 1 - i) as usize, y: 0 })
        }
    }
}

/// In a one-wide grid the acceptable instances are exactly those whose
/// endpoints are the two ends of the line.
pub proof fn lemma_dim1_acceptable_iff_ends(n: int, m: int, s: Coord, t: Coord)
    requires
        n >= 1,
        m >= 1,
        n <= usize::MAX,
        m <= usize::MAX,
        n == 1 || m == 1,
        in_bounds(n, m, s),
        in_bounds(n, m, t),
        s != t,
    ensures
        acceptable(n, m, s, t) <==> ((s == (Coord { x: 0, y: 0 }) && t == line_far(n, m)) || (t
            == (Coord { x: 0, y: 0 }) && s == line_far(n, m))),
{
    assert(n * m == if n == 1 {
        m
    } else {
        n
    }) by (nonlinear_arith)
        requires
            n >= 1,
            m >= 1,
            n == 1 || m == 1,
    ;
    let o = Coord { x: 0, y: 0 };
    let f = line_far(n, m);
    if o == f {
        // a single-vertex line cannot hold two distinct endpoints
        assert(n == 1 && m == 1);
        assert(s == o && t == o);
        assert(false);
    }
    if acceptable(n, m, s, t) {
        assert((s == o || t == o) && (s == f || t == f));
    }
    if (s == o && t == f) || (t == o && s == f) {
        assert(!crate::gridgraph::forbidden(n, m, s, t));
        if n == 1 {
            assert(f.y == m - 1);
            assert(crate::gridgraph::parity(o) == 0);
            if m % 2 == 1 {
                assert((n * m) % 2 == 1);
                assert(crate::gridgraph::parity(f) == 0);
            } else {
                assert((n * m) % 2 == 0);
                assert(crate::gridgraph::parity(f) == 1);
            }
            assert(crate::gridgraph::color_compatible(n, m, s, t));
        } else {
            assert(f.x == n - 1);
            assert(crate::gridgraph::parity(o) == 0);
            if n % 2 == 1 {
                assert((n * m) % 2 == 1);
                assert(crate::gridgraph::parity(f) == 0);
            } else {
                assert((n * m) % 2 == 0);
                assert(crate::gridgraph::parity(f) == 1);
            }
            assert(crate::gridgraph::color_compatible(n, m, s, t));
        }
    }
}

/// The state change of stripping the right band.
pub open spec fn stripped_right_state(pre: GridProblem, post: GridProblem) -> bool {
    &&& post.grid_graph.n == pre.grid_graph.n - 2
    &&& post.grid_graph.m == pre.grid_graph.m
    &&& post.start_coords == pre.start_coords
    &&& post.end_coords == pre.end_coords
    &&& post.extensions@ == pre.extensions@.push(GridExtension::Right)
}

/// The state change of stripping the upper band.
pub open spec fn stripped_up_state(pre: GridProblem, post: GridProblem) -> bool {
    &&& post.grid_graph.n == pre.grid_graph.n
    &&& post.grid_graph.m == pre.grid_graph.m - 2
    &&& post.start_coords == pre.start_coords
    &&& post.end_coords == pre.end_coords
    &&& post.extensions@ == pre.extensions@.push(GridExtension::Up)
}

/// The state change of stripping the left band: the endpoints
/// translate two to the left.
pub open spec fn stripped_left_state(pre: GridProblem, post: GridProblem) -> bool {
    &&& post.grid_graph.n == pre.grid_graph.n - 2
    &&& post.grid_graph.m == pre.grid_graph.m
    &&& post.start_coords.x == pre.start_coords.x - 2
    &&& post.start_coords.y == pre.start_coords.y
    &&& post.end_coords.x == pre.end_coords.x - 2
    &&& post.end_coords.y == pre.end_coords.y
    &&& post.extensions@ == pre.extensions@.push(GridExtension::Left)
}

/// The state change of stripping the lower band: the endpoints
/// translate two downward.
pub open spec fn stripped_down_state(pre: GridProblem, post: GridProblem) -> bool {
    &&& post.grid_graph.n == pre.grid_graph.n
    &&& post.grid_graph.m == pre.grid_graph.m - 2
    &&& post.start_coords.x == pre.start_coords.x
    &&& post.start_coords.y == pre.start_coords.y - 2
    &&& post.end_coords.x == pre.end_coords.x
    &&& post.end_coords.y == pre.end_coords.y - 2
    &&& post.extensions@ == pre.extensions@.push(GridExtension::Down)
}

/// The state change of one successful strip: the grid loses a
/// two-wide band on one side, the endpoints translate when the band
/// was on the low side of its axis, and the direction is recorded.
pub open spec fn strip_step(pre: GridProblem, post: GridProblem) -> bool {
    ||| (pre.can_strip_right() && stripped_right_state(pre, post))
    ||| (pre.can_strip_up() && stripped_up_state(pre, post))
    ||| (pre.can_strip_left() && stripped_left_state(pre, post))
    ||| (pre.can_strip_down() && stripped_down_state(pre, post))
}

/// One strip step keeps the dimensions and endpoints that
/// reconstruction will restore.
proof fn lemma_strip_step_keeps_target(pre: GridProblem, post: GridProblem)
    requires
        strip_step(pre, post),
    ensures
        post.recon_width() == pre.recon_width(),
        post.recon_height() == pre.recon_height(),
        post.recon_start_x() == pre.recon_start_x(),
        post.recon_start_y() == pre.recon_start_y(),
        post.recon_end_x() == pre.recon_end_x(),
        post.recon_end_y() == pre.recon_end_y(),
{
    if post.extensions@ == pre.extensions@.push(GridExtension::Right) {
        lemma_count_dir_push(pre.extensions@, GridExtension::Right, GridExtension::Right);
        lemma_count_dir_push(pre.extensions@, GridExtension::Up, GridExtension::Right);
        lemma_count_dir_push(pre.extensions@, GridExtension::Left, GridExtension::Right);
        lemma_count_dir_push(pre.extensions@, GridExtension::Down, GridExtension::Right);
    }
    if post.extensions@ == pre.extensions@.push(GridExtension::Up) {
        lemma_count_dir_push(pre.extensions@, GridExtension::Right, GridExtension::Up);
        lemma_count_dir_push(pre.extensions@, GridExtension::Up, GridExtension::Up);
        lemma_count_dir_push(pre.extensions@, GridExtension::Left, GridExtension::Up);
        lemma_count_dir_push(pre.extensions@, GridExtension::Down, GridExtension::Up);
    }
    if post.extensions@ == pre.extensions@.push(GridExtension::Left) {
        lemma_count_dir_push(pre.extensions@, GridExtension::Right, GridExtension::Left);
        lemma_count_dir_push(pre.extensions@, GridExtension::Up, GridExtension::Left);
        lemma_count_dir_push(pre.extensions@, GridExtension::Left, GridExtension::Left);
        lemma_count_dir_push(pre.extensions@, GridExtension::Down, GridExtension::Left);
    }
    if post.extensions@ == pre.extensions@.push(GridExtension::Down) {
        lemma_count_dir_push(pre.extensions@, GridExtension::Right, GridExtension::Down);
        lemma_count_dir_push(pre.extensions@, GridExtension::Up, GridExtension::Down);
        lemma_count_dir_push(pre.extensions@, GridExtension::Left, GridExtension::Down);
        lemma_count_dir_push(pre.extensions@, GridExtension::Down, GridExtension::Down);
    }
}

/// The reconstruction round trip: a problem whose record starts empty
/// and that then goes through any run of successful strips records
/// exactly enough to restore the original dimensions and endpoints,
/// which is what `reconstruct` then computes from the final state.
pub proof fn lemma_strip_run_reconstructs_original(states: Seq<GridProblem>)
    requires
        states.len() >= 1,
        states.first().extensions@.len() == 0,
        forall|i: int| 0 < i < states.len() ==> #[trigger] strip_step(states[i - 1], states[i]),
    ensures
        states.last().recon_width() == states.first().grid_graph.n,
        states.last().recon_height() == states.first().grid_graph.m,
        states.last().recon_start_x() == states.first().start_coords.x,
        states.last().recon_start_y() == states.first().start_coords.y,
        states.last().recon_end_x() == states.first().end_coords.x,
        states.last().recon_end_y() == states.first().end_coords.y,
    decreases states.len(),
{
    if states.len() == 1 {
        assert(states.first().extensions@ =~= Seq::<GridExtension>::empty());
    } else {
        let rest = states.drop_last();
        assert(rest.first() == states.first());
        assert forall|i: int| 0 < i < rest.len() implies #[trigger] strip_step(
            rest[i - 1],
            rest[i],
        ) by {
            assert(strip_step(states[i - 1], states[i]));
        }
        lemma_strip_run_reconstructs_original(rest);
        assert(strip_step(states[states.len() - 2], states.last()));
        lemma_strip_step_keeps_target(states[states.len() - 2], states.last());
        assert(rest.last() == states[states.len() - 2]);
    }
}

/// A Hamiltonian path problem over a grid graph: the grid, the two
/// endpoints, and the strips recorded while the problem is being
/// reduced. At rest the recorded strips are empty.
pub struct GridProblem {
    pub grid_graph: GridGraph,
    pub extensions: Vec<GridExtension>,
    pub start_coords: Coord,
    pub end_coords: Coord,
}

impl GridProblem {
    /// Both endpoints lie in the grid, they differ, and the vertex
    /// count fits the machine word.
    pub open spec fn wf(&self) -> bool {
        &&& self.grid_graph.wf()
        &&& in_bounds(self.grid_graph.n as int, self.grid_graph.m as int, self.start_coords)
        &&& in_bounds(self.grid_graph.n as int, self.grid_graph.m as int, self.end_coords)
        &&& self.start_coords != self.end_coords
        &&& self.grid_graph.n * self.grid_graph.m <= usize::MAX
    }

    /// The instance admits a Hamiltonian path between its endpoints:
    /// color compatible and not forbidden.
    pub open spec fn acceptable_spec(&self) -> bool {
        acceptable(
            self.grid_graph.n as int,
            self.grid_graph.m as int,
            self.start_coords,
            self.end_coords,
        )
    }

    /// The width the problem returns to once every recorded strip is
    /// replayed.
    pub open spec fn recon_width(&self) -> int {
        self.grid_graph.n + 2 * count_h(self.extensions@)
    }

    /// The height the problem returns to once every recorded strip is
    /// replayed.
    pub open spec fn recon_height(&self) -> int {
        self.grid_graph.m + 2 * count_v(self.extensions@)
    }

    /// The start x coordinate after replaying the recorded strips.
    pub open spec fn recon_start_x(&self) -> int {
        self.start_coords.x + 2 * count_dir(self.extensions@, GridExtension::Left)
    }

    /// The start y coordinate after replaying the recorded strips.
    pub open spec fn recon_start_y(&self) -> int {
        self.start_coords.y + 2 * count_dir(self.extensions@, GridExtension::Down)
    }

    /// The end x coordinate after replaying the recorded strips.
    pub open spec fn recon_end_x(&self) -> int {
        self.end_coords.x + 2 * count_dir(self.extensions@, GridExtension::Left)
    }

    /// The end y coordinate after replaying the recorded strips.
    pub open spec fn recon_end_y(&self) -> int {
        self.end_coords.y + 2 * count_dir(self.extensions@, GridExtension::Down)
    }

    /// The two-units-from-the-boundary condition and acceptability of
    /// the candidate after stripping the right band.
    pub open spec fn can_strip_right(&self) -> bool {
        &&& self.grid_graph.n - self.start_coords.x > 2
        &&& self.grid_graph.n - self.end_coords.x > 2
        &&& acceptable(
            self.grid_graph.n - 2,
            self.grid_graph.m as int,
            self.start_coords,
            self.end_coords,
        )
    }

    /// The analogous condition for stripping the upper band.
    pub open spec fn can_strip_up(&self) -> bool {
        &&& self.grid_graph.m - self.start_coords.y > 2
        &&& self.grid_graph.m - self.end_coords.y > 2
        &&& acceptable(
            self.grid_graph.n as int,
            self.grid_graph.m - 2,
            self.start_coords,
            self.end_coords,
        )
    }

    /// The analogous condition for stripping the left band, with the
    /// endpoints translated into the smaller grid.
    pub open spec fn can_strip_left(&self) -> bool {
        &&& self.start_coords.x >= 2
        &&& self.end_coords.x >= 2
        &&& acceptable(
            self.grid_graph.n - 2,
            self.grid_graph.m as int,
            Coord { x: (self.start_coords.x - 2) as usize, y: self.start_coords.y },
            Coord { x: (self.end_coords.x - 2) as usize, y: self.end_coords.y },
        )
    }

    /// The analogous condition for stripping the lower band.
    pub open spec fn can_strip_down(&self) -> bool {
        &&& self.start_coords.y >= 2
        &&& self.end_coords.y >= 2
        &&& acceptable(
            self.grid_graph.n as int,
            self.grid_graph.m - 2,
            Coord { x: self.start_coords.x, y: (self.start_coords.y - 2) as usize },
            Coord { x: self.end_coords.x, y: (self.end_coords.y - 2) as usize },
        )
    }

    /// No side of the problem satisfies its stripping condition.
    pub open spec fn no_strip_applies(&self) -> bool {
        &&& !self.can_strip_right()
        &&& !self.can_strip_up()
        &&& !self.can_strip_left()
        &&& !self.can_strip_down()
    }

    /// Initialize a grid problem from the grid dimensions and the
    /// start and end vertex coordinates, rejecting endpoints outside
    /// the grid and equal endpoints.
    pub fn new(width: usize, height: usize, start_coords: Coord, end_coords: Coord) -> (r: Result<
        GridProblem,
        GridError,
    >)
        requires
            width * height <= usize::MAX,
        ensures
            !(in_bounds(width as int, height as int, start_coords) && in_bounds(
                width as int,
                height as int,
                end_coords,
            )) ==> r == Err::<GridProblem, GridError>(GridError::OutOfBounds),
            in_bounds(width as int, height as int, start_coords) && in_bounds(
                width as int,
                height as int,
                end_coords,
            ) && start_coords == end_coords ==> r == Err::<GridProblem, GridError>(
                GridError::EqualEndpoints,
            ),
            in_bounds(width as int, height as int, start_coords) && in_bounds(
                width as int,
                height as int,
                end_coords,
            ) && start_coords != end_coords ==> match r {
                Ok(p) => {
                    &&& p.grid_graph.n == width
                    &&& p.grid_graph.m == height
                    &&& p.start_coords == start_coords
                    &&& p.end_coords == end_coords
                    &&& p.extensions@.len() == 0
                    &&& p.wf()
                },
                Err(_) => false,
            },
    {
        if start_coords.x >= width || end_coords.x >= width || start_coords.y >= height
            || end_coords.y >= height {
            return Err(GridError::OutOfBounds);
        }
        if start_coords == end_coords {
            return Err(GridError::EqualEndpoints);
        }
        let grid_graph = GridGraph::new(width, height);
        Ok(GridProblem { grid_graph, extensions: Vec::new(), start_coords, end_coords })
    }

    /// Check if the grid problem is acceptable.
    pub fn is_acceptable(&self) -> (r: bool)
        requires
            self.wf(),
        ensures
            r == self.acceptable_spec(),
    {
        let are_color_compatible: bool = self.grid_graph.are_color_compatible(
            self.start_coords,
            self.end_coords,
        );
        let is_forbidden: bool = self.grid_graph.is_forbidden(self.start_coords, self.end_coords);
        are_color_compatible && !is_forbidden
    }

    /// Strip the right band if both endpoints are far enough from the
    /// right boundary and the smaller problem stays acceptable.
    pub fn strip_right(&mut self) -> (r: bool)
        requires
            old(self).wf(),
        ensures
            final(self).wf(),
            r == old(self).can_strip_right(),
            !r ==> *final(self) == *old(self),
            r ==> {
                &&& final(self).grid_graph.n == old(self).grid_graph.n - 2
                &&& final(self).grid_graph.m == old(self).grid_graph.m
                &&& final(self).start_coords == old(self).start_coords
                &&& final(self).end_coords == old(self).end_coords
                &&& final(self).extensions@ == old(self).extensions@.push(GridExtension::Right)
                &&& final(self).acceptable_spec()
            },
            final(self).recon_width() == old(self).recon_width(),
            final(self).recon_height() == old(self).recon_height(),
            final(self).recon_start_x() == old(self).recon_start_x(),
            final(self).recon_start_y() == old(self).recon_start_y(),
            final(self).recon_end_x() == old(self).recon_end_x(),
            final(self).recon_end_y() == old(self).recon_end_y(),
    {
        let bound: usize = self.grid_graph.get_width();
        if bound - self.start_coords.x <= 2 || bound - self.end_coords.x <= 2 {
            return false;
        }
        if !acceptable_of(bound - 2, self.grid_graph.m, self.start_coords, self.end_coords) {
            return false;
        }
        proof {
            vstd::arithmetic::mul::lemma_mul_inequality(
                old(self).grid_graph.n - 2,
                old(self).grid_graph.n as int,
                old(self).grid_graph.m as int,
            );
            lemma_count_dir_push(old(self).extensions@, GridExtension::Right, GridExtension::Right);
            lemma_count_dir_push(old(self).extensions@, GridExtension::Up, GridExtension::Right);
            lemma_count_dir_push(old(self).extensions@, GridExtension::Left, GridExtension::Right);
            lemma_count_dir_push(old(self).extensions@, GridExtension::Down, GridExtension::Right);
        }
        self.grid_graph = GridGraph::new(bound - 2, self.grid_graph.m);
        self.extensions.push(GridExtension::Right);
        true
    }

    /// Strip the upper band if both endpoints are far enough from the
    /// upper boundary and the smaller problem stays acceptable.
    pub fn strip_up(&mut self) -> (r: bool)
        requires
            old(self).wf(),
        ensures
            final(self).wf(),
            r == old(self).can_strip_up(),
            !r ==> *final(self) == *old(self),
            r ==> {
                &&& final(self).grid_graph.n == old(self).grid_graph.n
                &&& final(self).grid_graph.m == old(self).grid_graph.m - 2
                &&& final(self).start_coords == old(self).start_coords
                &&& final(self).end_coords == old(self).end_coords
                &&& final(self).extensions@ == old(self).extensions@.push(GridExtension::Up)
                &&& final(self).acceptable_spec()
            },
            final(self).recon_width() == old(self).recon_width(),
            final(self).recon_height() == old(self).recon_height(),
            final(self).recon_start_x() == old(self).recon_start_x(),
            final(self).recon_start_y() == old(self).recon_start_y(),
            final(self).recon_end_x() == old(self).recon_end_x(),
            final(self).recon_end_y() == old(self).recon_end_y(),
    {
        let bound: usize = self.grid_graph.get_height();
        if bound - self.start_coords.y <= 2 || bound - self.end_coords.y <= 2 {
            return false;
        }
        if !acceptable_of(self.grid_graph.n, bound - 2, self.start_coords, self.end_coords) {
            return false;
        }
        proof {
            vstd::arithmetic::mul::lemma_mul_inequality(
                old(self).grid_graph.m - 2,
                old(self).grid_graph.m as int,
                old(self).grid_graph.n as int,
            );
            vstd::arithmetic::mul::lemma_mul_is_commutative(
                old(self).grid_graph.n as int,
                old(self).grid_graph.m as int,
            );
            vstd::arithmetic::mul::lemma_mul_is_commutative(
                old(self).grid_graph.n as int,
                old(self).grid_graph.m - 2,
            );
            lemma_count_dir_push(old(self).extensions@, GridExtension::Right, GridExtension::Up);
            lemma_count_dir_push(old(self).extensions@, GridExtension::Up, GridExtension::Up);
            lemma_count_dir_push(old(self).extensions@, GridExtension::Left, GridExtension::Up);
            lemma_count_dir_push(old(self).extensions@, GridExtension::Down, GridExtension::Up);
        }
        self.grid_graph = GridGraph::new(self.grid_graph.n, bound - 2);
        self.extensions.push(GridExtension::Up);
        true
    }

    /// Strip the left band if both endpoints are far enough from the
    /// left boundary and the smaller problem, with the endpoints
    /// translated two to the left, stays acceptable.
    pub fn strip_left(&mut self) -> (r: bool)
        requires
            old(self).wf(),
        ensures
            final(self).wf(),
            r == old(self).can_strip_left(),
            !r ==> *final(self) == *old(self),
            r ==> {
                &&& final(self).grid_graph.n == old(self).grid_graph.n - 2
                &&& final(self).grid_graph.m == old(self).grid_graph.m
                &&& final(self).start_coords.x == old(self).start_coords.x - 2
                &&& final(self).start_coords.y == old(self).start_coords.y
                &&& final(self).end_coords.x == old(self).end_coords.x - 2
                &&& final(self).end_coords.y == old(self).end_coords.y
                &&& final(self).extensions@ == old(self).extensions@.push(GridExtension::Left)
                &&& final(self).acceptable_spec()
            },
            final(self).recon_width() == old(self).recon_width(),
            final(self).recon_height() == old(self).recon_height(),
            final(self).recon_start_x() == old(self).recon_start_x(),
            final(self).recon_start_y() == old(self).recon_start_y(),
            final(self).recon_end_x() == old(self).recon_end_x(),
            final(self).recon_end_y() == old(self).recon_end_y(),
    {
        if self.start_coords.x < 2 || self.end_coords.x < 2 {
            return false;
        }
        let stripped_start = Coord { x: self.start_coords.x - 2, y: self.start_coords.y };
        let stripped_end = Coord { x: self.end_coords.x - 2, y: self.end_coords.y };
        if !acceptable_of(self.grid_graph.n - 2, self.grid_graph.m, stripped_start, stripped_end) {
            return false;
        }
        proof {
            vstd::arithmetic::mul::lemma_mul_inequality(
                old(self).grid_graph.n - 2,
                old(self).grid_graph.n as int,
                old(self).grid_graph.m as int,
            );
            lemma_count_dir_push(old(self).extensions@, GridExtension::Right, GridExtension::Left);
            lemma_count_dir_push(old(self).extensions@, GridExtension::Up, GridExtension::Left);
            lemma_count_dir_push(old(self).extensions@, GridExtension::Left, GridExtension::Left);
            lemma_count_dir_push(old(self).extensions@, GridExtension::Down, GridExtension::Left);
        }
        self.grid_graph = GridGraph::new(self.grid_graph.n - 2, self.grid_graph.m);
        self.start_coords = stripped_start;
        self.end_coords = stripped_end;
        self.extensions.push(GridExtension::Left);
        true
    }

    /// Strip the lower band if both endpoints are far enough from the
    /// lower boundary and the smaller problem, with the endpoints
    /// translated two downward, stays acceptable.
    pub fn strip_down(&mut self) -> (r: bool)
        requires
            old(self).wf(),
        ensures
            final(self).wf(),
            r == old(self).can_strip_down(),
            !r ==> *final(self) == *old(self),
            r ==> {
                &&& final(self).grid_graph.n == old(self).grid_graph.n
                &&& final(self).grid_graph.m == old(self).grid_graph.m - 2
                &&& final(self).start_coords.x == old(self).start_coords.x
                &&& final(self).start_coords.y == old(self).start_coords.y - 2
                &&& final(self).end_coords.x == old(self).end_coords.x
                &&& final(self).end_coords.y == old(self).end_coords.y - 2
                &&& final(self).extensions@ == old(self).extensions@.push(GridExtension::Down)
                &&& final(self).acceptable_spec()
            },
            final(self).recon_width() == old(self).recon_width(),
            final(self).recon_height() == old(self).recon_height(),
            final(self).recon_start_x() == old(self).recon_start_x(),
            final(self).recon_start_y() == old(self).recon_start_y(),
            final(self).recon_end_x() == old(self).recon_end_x(),
            final(self).recon_end_y() == old(self).recon_end_y(),
    {
        if self.start_coords.y < 2 || self.end_coords.y < 2 {
            return false;
        }
        let stripped_start = Coord { x: self.start_coords.x, y: self.start_coords.y - 2 };
        let stripped_end = Coord { x: self.end_coords.x, y: self.end_coords.y - 2 };
        if !acceptable_of(self.grid_graph.n, self.grid_graph.m - 2, stripped_start, stripped_end) {
            return false;
        }
        proof {
            vstd::arithmetic::mul::lemma_mul_inequality(
                old(self).grid_graph.m - 2,
                old(self).grid_graph.m as int,
                old(self).grid_graph.n as int,
            );
            vstd::arithmetic::mul::lemma_mul_is_commutative(
                old(self).grid_graph.n as int,
                old(self).grid_graph.m as int,
            );
            vstd::arithmetic::mul::lemma_mul_is_commutative(
                old(self).grid_graph.n as int,
                old(self).grid_graph.m - 2,
            );
            lemma_count_dir_push(old(self).extensions@, GridExtension::Right, GridExtension::Down);
            lemma_count_dir_push(old(self).extensions@, GridExtension::Up, GridExtension::Down);
            lemma_count_dir_push(old(self).extensions@, GridExtension::Left, GridExtension::Down);
            lemma_count_dir_push(old(self).extensions@, GridExtension::Down, GridExtension::Down);
        }
        self.grid_graph = GridGraph::new(self.grid_graph.n, self.grid_graph.m - 2);
        self.start_coords = stripped_start;
        self.end_coords = stripped_end;
        self.extensions.push(GridExtension::Down);
        true
    }

    /// Strip the problem on the first side that allows it, trying
    /// right, up, left, then down. A successful strip leaves a smaller
    /// problem that is still acceptable and keeps the reconstruction
    /// target unchanged.
    pub fn strip(&mut self) -> (r: bool)
        requires
            old(self).wf(),
        ensures
            final(self).wf(),
            r == (old(self).can_strip_right() || old(self).can_strip_up()
                || old(self).can_strip_left() || old(self).can_strip_down()),
            !r ==> *final(self) == *old(self),
            r ==> final(self).acceptable_spec(),
            r ==> strip_step(*old(self), *final(self)),
            r ==> (if old(self).can_strip_right() {
                stripped_right_state(*old(self), *final(self))
            } else if old(self).can_strip_up() {
                stripped_up_state(*old(self), *final(self))
            } else if old(self).can_strip_left() {
                stripped_left_state(*old(self), *final(self))
            } else {
                stripped_down_state(*old(self), *final(self))
            }),
            r ==> (final(self).grid_graph.n == old(self).grid_graph.n - 2
                && final(self).grid_graph.m == old(self).grid_graph.m) || (final(self).grid_graph.n
                == old(self).grid_graph.n && final(self).grid_graph.m == old(self).grid_graph.m
                - 2),
            final(self).recon_width() == old(self).recon_width(),
            final(self).recon_height() == old(self).recon_height(),
            final(self).recon_start_x() == old(self).recon_start_x(),
            final(self).recon_start_y() == old(self).recon_start_y(),
            final(self).recon_end_x() == old(self).recon_end_x(),
            final(self).recon_end_y() == old(self).recon_end_y(),
    {
        if self.strip_right() {
            return true;
        }
        if self.strip_up() {
            return true;
        }
        if self.strip_left() {
            return true;
        }
        if self.strip_down() {
            return true;
        }
        false
    }

    /// Whether the horizontal edge between `(x, y)` and `(x, y + 1)`
    /// splits the problem into two acceptable sub-problems.
    pub open spec fn h_split_at(&self, x: int, y: int) -> bool {
        let n = self.grid_graph.n as int;
        let m = self.grid_graph.m as int;
        let s = self.start_coords;
        let t = self.end_coords;
        let lov = Coord { x: x as usize, y: y as usize };
        let upv = Coord { x: x as usize, y: (y + 1) as usize };
        &&& s.y != t.y
        &&& if s.y < t.y {
            s.y <= y < t.y
        } else {
            t.y <= y < s.y
        }
        &&& 0 <= x < n
        &&& lov != s && lov != t && upv != s && upv != t
        &&& if s.y < t.y {
            acceptable(n, y + 1, s, lov) && acceptable(
                n,
                m - (y + 1),
                Coord { x: x as usize, y: 0 },
                Coord { x: t.x, y: (t.y - (y + 1)) as usize },
            )
        } else {
            acceptable(n, y + 1, lov, t) && acceptable(
                n,
                m - (y + 1),
                Coord { x: s.x, y: (s.y - (y + 1)) as usize },
                Coord { x: x as usize, y: 0 },
            )
        }
    }

    /// What a successful horizontal split returns: two well-formed
    /// acceptable sub-problems that tile the grid vertically, whose
    /// endpoints place the original endpoints in their halves and meet
    /// across the split edge.
    pub open spec fn h_split_pair(&self, lo: GridProblem, hi: GridProblem) -> bool {
        &&& lo.wf() && hi.wf()
        &&& lo.extensions@.len() == 0 && hi.extensions@.len() == 0
        &&& lo.acceptable_spec() && hi.acceptable_spec()
        &&& lo.grid_graph.n == self.grid_graph.n && hi.grid_graph.n == self.grid_graph.n
        &&& lo.grid_graph.m >= 1 && hi.grid_graph.m >= 1
        &&& lo.grid_graph.m + hi.grid_graph.m == self.grid_graph.m
        &&& self.start_coords.y != self.end_coords.y
        &&& (self.start_coords.y < self.end_coords.y ==> {
            &&& lo.start_coords == self.start_coords
            &&& lo.end_coords.y == lo.grid_graph.m - 1
            &&& hi.start_coords.x == lo.end_coords.x
            &&& hi.start_coords.y == 0
            &&& hi.end_coords.x == self.end_coords.x
            &&& hi.end_coords.y + lo.grid_graph.m == self.end_coords.y
        })
        &&& (self.start_coords.y > self.end_coords.y ==> {
            &&& lo.end_coords == self.end_coords
            &&& lo.start_coords.y == lo.grid_graph.m - 1
            &&& hi.end_coords.x == lo.start_coords.x
            &&& hi.end_coords.y == 0
            &&& hi.start_coords.x == self.start_coords.x
            &&& hi.start_coords.y + lo.grid_graph.m == self.start_coords.y
        })
    }

    /// Whether the vertical edge between `(x, y)` and `(x + 1, y)`
    /// splits the problem into two acceptable sub-problems.
    pub open spec fn v_split_at(&self, x: int, y: int) -> bool {
        let n = self.grid_graph.n as int;
        let m = self.grid_graph.m as int;
        let s = self.start_coords;
        let t = self.end_coords;
        let lev = Coord { x: x as usize, y: y as usize };
        let riv = Coord { x: (x + 1) as usize, y: y as usize };
        &&& s.x != t.x
        &&& if s.x < t.x {
            s.x <= x < t.x
        } else {
            t.x <= x < s.x
        }
        &&& 0 <= y < m
        &&& lev != s && lev != t && riv != s && riv != t
        &&& if s.x < t.x {
            acceptable(x + 1, m, s, lev) && acceptable(
                n - (x + 1),
                m,
                Coord { x: 0, y: y as usize },
                Coord { x: (t.x - (x + 1)) as usize, y: t.y },
            )
        } else {
            acceptable(x + 1, m, lev, t) && acceptable(
                n - (x + 1),
                m,
                Coord { x: (s.x - (x + 1)) as usize, y: s.y },
                Coord { x: 0, y: y as usize },
            )
        }
    }

    /// What a successful vertical split returns, mirroring
    /// `h_split_pair` with the two axes exchanged.
    pub open spec fn v_split_pair(&self, le: GridProblem, ri: GridProblem) -> bool {
        &&& le.wf() && ri.wf()
        &&& le.extensions@.len() == 0 && ri.extensions@.len() == 0
        &&& le.acceptable_spec() && ri.acceptable_spec()
        &&& le.grid_graph.m == self.grid_graph.m && ri.grid_graph.m == self.grid_graph.m
        &&& le.grid_graph.n >= 1 && ri.grid_graph.n >= 1
        &&& le.grid_graph.n + ri.grid_graph.n == self.grid_graph.n
        &&& self.start_coords.x != self.end_coords.x
        &&& (self.start_coords.x < self.end_coords.x ==> {
            &&& le.start_coords == self.start_coords
            &&& le.end_coords.x == le.grid_graph.n - 1
            &&& ri.start_coords.y == le.end_coords.y
            &&& ri.start_coords.x == 0
            &&& ri.end_coords.y == self.end_coords.y
            &&& ri.end_coords.x + le.grid_graph.n == self.end_coords.x
        })
        &&& (self.start_coords.x > self.end_coords.x ==> {
            &&& le.end_coords == self.end_coords
            &&& le.start_coords.x == le.grid_graph.n - 1
            &&& ri.end_coords.y == le.start_coords.y
            &&& ri.end_coords.x == 0
            &&& ri.start_coords.y == self.start_coords.y
            &&& ri.start_coords.x + le.grid_graph.n == self.start_coords.x
        })
    }

    /// Scan for an interior horizontal edge whose two sides form
    /// acceptable sub-problems, and return the sub-problem pair for the
    /// first such edge found.
    #[verifier::loop_isolation(false)]
    pub fn split_horizontally(&self) -> (r: Option<(GridProblem, GridProblem)>)
        requires
            self.wf(),
        ensures
            (r is Some) == exists|x: int, y: int| self.h_split_at(x, y),
            match r {
                Some(pair) => self.h_split_pair(pair.0, pair.1),
                None => true,
            },
            match r {
                Some(pair) => exists|x: int, y: int|
                    {
                        &&& #[trigger] self.h_split_at(x, y)
                        &&& forall|x2: int, y2: int|
                            y2 < y || (y2 == y && x2 < x) ==> !self.h_split_at(x2, y2)
                        &&& pair.0.grid_graph.m == y + 1
                        &&& (if self.start_coords.y < self.end_coords.y {
                            pair.0.end_coords
                        } else {
                            pair.0.start_coords
                        }) == (Coord { x: x as usize, y: y as usize })
                    },
                None => true,
            },
    {
        let n = self.grid_graph.get_width();
        let m = self.grid_graph.get_height();
        let s = self.start_coords;
        let t = self.end_coords;
        if s.y == t.y {
            proof {
                if exists|x: int, y: int| self.h_split_at(x, y) {
                    let (x0, y0) = choose|x: int, y: int| self.h_split_at(x, y);
                    assert(false);
                }
            }
            return None;
        }
        let is_start_below: bool = s.y < t.y;
        let ylo = if is_start_below {
            s.y
        } else {
            t.y
        };
        let yhi = if is_start_below {
            t.y
        } else {
            s.y
        };
        let mut yy: usize = ylo;
        while yy < yhi
            invariant
                ylo <= yy <= yhi,
                forall|x2: int, y2: int| y2 < yy ==> !self.h_split_at(x2, y2),
            decreases yhi - yy,
        {
            let mut xx: usize = 0;
            while xx < n
                invariant
                    xx <= n,
                    forall|x2: int, y2: int| y2 < yy ==> !self.h_split_at(x2, y2),
                    forall|x2: int| x2 < xx ==> !self.h_split_at(x2, yy as int),
                decreases n - xx,
            {
                let lov = Coord { x: xx, y: yy };
                let upv = Coord { x: xx, y: yy + 1 };
                if !(lov == s || lov == t || upv == s || upv == t) {
                    let ok = if is_start_below {
                        acceptable_of(n, yy + 1, s, lov) && acceptable_of(
                            n,
                            m - (yy + 1),
                            Coord { x: xx, y: 0 },
                            Coord { x: t.x, y: t.y - (yy + 1) },
                        )
                    } else {
                        acceptable_of(n, yy + 1, lov, t) && acceptable_of(
                            n,
                            m - (yy + 1),
                            Coord { x: s.x, y: s.y - (yy + 1) },
                            Coord { x: xx, y: 0 },
                        )
                    };
                    if ok {
                        let lower = GridProblem {
                            grid_graph: GridGraph::new(n, yy + 1),
                            extensions: Vec::new(),
                            start_coords: if is_start_below {
                                s
                            } else {
                                lov
                            },
                            end_coords: if is_start_below {
                                lov
                            } else {
                                t
                            },
                        };
                        let upper = GridProblem {
                            grid_graph: GridGraph::new(n, m - (yy + 1)),
                            extensions: Vec::new(),
                            start_coords: if is_start_below {
                                Coord { x: xx, y: 0 }
                            } else {
                                Coord { x: s.x, y: s.y - (yy + 1) }
                            },
                            end_coords: if is_start_below {
                                Coord { x: t.x, y: t.y - (yy + 1) }
                            } else {
                                Coord { x: xx, y: 0 }
                            },
                        };
                        proof {
                            assert(self.h_split_at(xx as int, yy as int));
                            let nn = n as int;
                            let mm = m as int;
                            let lm = yy + 1;
                            assert(nn * lm <= nn * mm) by (nonlinear_arith)
                                requires
                                    0 <= nn,
                                    lm <= mm,
                            ;
                            assert(nn * (mm - lm) <= nn * mm) by (nonlinear_arith)
                                requires
                                    0 <= nn,
                                    0 <= lm,
                            ;
                        }
                        return Some((lower, upper));
                    }
                }
                proof {
                    assert(!self.h_split_at(xx as int, yy as int));
                }
                xx = xx + 1;
            }
            yy = yy + 1;
        }
        proof {
            if exists|x: int, y: int| self.h_split_at(x, y) {
                let (x0, y0) = choose|x: int, y: int| self.h_split_at(x, y);
                assert(false);
            }
        }
        None
    }

    /// Check if the grid problem can be split horizontally.
    pub fn can_be_split_horizontally(&self) -> (r: bool)
        requires
            self.wf(),
        ensures
            r == exists|x: int, y: int| self.h_split_at(x, y),
    {
        self.split_horizontally().is_some()
    }

    /// Scan for an interior vertical edge whose two sides form
    /// acceptable sub-problems, and return the sub-problem pair for the
    /// first such edge found.
    #[verifier::loop_isolation(false)]
    pub fn split_vertically(&self) -> (r: Option<(GridProblem, GridProblem)>)
        requires
            self.wf(),
        ensures
            (r is Some) == exists|x: int, y: int| self.v_split_at(x, y),
            match r {
                Some(pair) => self.v_split_pair(pair.0, pair.1),
                None => true,
            },
            match r {
                Some(pair) => exists|x: int, y: int|
                    {
                        &&& #[trigger] self.v_split_at(x, y)
                        &&& forall|x2: int, y2: int|
                            x2 < x || (x2 == x && y2 < y) ==> !self.v_split_at(x2, y2)
                        &&& pair.0.grid_graph.n == x + 1
                        &&& (if self.start_coords.x < self.end_coords.x {
                            pair.0.end_coords
                        } else {
                            pair.0.start_coords
                        }) == (Coord { x: x as usize, y: y as usize })
                    },
                None => true,
            },
    {
        let n = self.grid_graph.get_width();
        let m = self.grid_graph.get_height();
        let s = self.start_coords;
        let t = self.end_coords;
        if s.x == t.x {
            proof {
                if exists|x: int, y: int| self.v_split_at(x, y) {
                    let (x0, y0) = choose|x: int, y: int| self.v_split_at(x, y);
                    assert(false);
                }
            }
            return None;
        }
        let is_start_left: bool = s.x < t.x;
        let xlo = if is_start_left {
            s.x
        } else {
            t.x
        };
        let xhi = if is_start_left {
            t.x
        } else {
            s.x
        };
        let mut xx: usize = xlo;
        while xx < xhi
            invariant
                xlo <= xx <= xhi,
                forall|x2: int, y2: int| x2 < xx ==> !self.v_split_at(x2, y2),
            decreases xhi - xx,
        {
            let mut yy: usize = 0;
            while yy < m
                invariant
                    yy <= m,
                    forall|x2: int, y2: int| x2 < xx ==> !self.v_split_at(x2, y2),
                    forall|y2: int| y2 < yy ==> !self.v_split_at(xx as int, y2),
                decreases m - yy,
            {
                let lev = Coord { x: xx, y: yy };
                let riv = Coord { x: xx + 1, y: yy };
                if !(lev == s || lev == t || riv == s || riv == t) {
                    let ok = if is_start_left {
                        acceptable_of(xx + 1, m, s, lev) && acceptable_of(
                            n - (xx + 1),
                            m,
                            Coord { x: 0, y: yy },
                            Coord { x: t.x - (xx + 1), y: t.y },
                        )
                    } else {
                        acceptable_of(xx + 1, m, lev, t) && acceptable_of(
                            n - (xx + 1),
                            m,
                            Coord { x: s.x - (xx + 1), y: s.y },
                            Coord { x: 0, y: yy },
                        )
                    };
                    if ok {
                        let left = GridProblem {
                            grid_graph: GridGraph::new(xx + 1, m),
                            extensions: Vec::new(),
                            start_coords: if is_start_left {
                                s
                            } else {
                                lev
                            },
                            end_coords: if is_start_left {
                                lev
                            } else {
                                t
                            },
                        };
                        let right = GridProblem {
                            grid_graph: GridGraph::new(n - (xx + 1), m),
                            extensions: Vec::new(),
                            start_coords: if is_start_left {
                                Coord { x: 0, y: yy }
                            } else {
                                Coord { x: s.x - (xx + 1), y: s.y }
                            },
                            end_coords: if is_start_left {
                                Coord { x: t.x - (xx + 1), y: t.y }
                            } else {
                                Coord { x: 0, y: yy }
                            },
                        };
                        proof {
                            assert(self.v_split_at(xx as int, yy as int));
                            let nn = n as int;
                            let mm = m as int;
                            let ln = xx + 1;
                            assert(ln * mm <= nn * mm) by (nonlinear_arith)
                                requires
                                    0 <= mm,
                                    ln <= nn,
                            ;
                            assert((nn - ln) * mm <= nn * mm) by (nonlinear_arith)
                                requires
                                    0 <= mm,
                                    0 <= ln,
                            ;
                        }
                        return Some((left, right));
                    }
                }
                proof {
                    assert(!self.v_split_at(xx as int, yy as int));
                }
                yy = yy + 1;
            }
            xx = xx + 1;
        }
        proof {
            if exists|x: int, y: int| self.v_split_at(x, y) {
                let (x0, y0) = choose|x: int, y: int| self.v_split_at(x, y);
                assert(false);
            }
        }
        None
    }

    /// Check if the grid problem can be split vertically.
    pub fn can_be_split_vertically(&self) -> (r: bool)
        requires
            self.wf(),
        ensures
            r == exists|x: int, y: int| self.v_split_at(x, y),
    {
        self.split_vertically().is_some()
    }

    /// Restore the dimensions and endpoints the problem had before its
    /// recorded strips were applied, walking the record and growing the
    /// grid by 2 per entry, and clear the record.
    #[verifier::loop_isolation(false)]
    pub fn reconstruct(&mut self)
        requires
            old(self).wf(),
            old(self).recon_width() <= usize::MAX,
            old(self).recon_height() <= usize::MAX,
            old(self).recon_width() * old(self).recon_height() <= usize::MAX,
        ensures
            final(self).wf(),
            final(self).grid_graph.n == old(self).recon_width(),
            final(self).grid_graph.m == old(self).recon_height(),
            final(self).start_coords.x == old(self).recon_start_x(),
            final(self).start_coords.y == old(self).recon_start_y(),
            final(self).end_coords.x == old(self).recon_end_x(),
            final(self).end_coords.y == old(self).recon_end_y(),
            final(self).extensions@.len() == 0,
    {
        let ghost ds = self.extensions@;
        let elen = self.extensions.len();
        let mut count_right: usize = 0;
        let mut count_up: usize = 0;
        let mut count_left: usize = 0;
        let mut count_down: usize = 0;
        let mut idx: usize = 0;
        while idx < elen
            invariant
                idx <= elen,
                *self == *old(self),
                count_right == count_dir(ds.take(idx as int), GridExtension::Right),
                count_up == count_dir(ds.take(idx as int), GridExtension::Up),
                count_left == count_dir(ds.take(idx as int), GridExtension::Left),
                count_down == count_dir(ds.take(idx as int), GridExtension::Down),
                count_right <= idx,
                count_up <= idx,
                count_left <= idx,
                count_down <= idx,
            decreases elen - idx,
        {
            proof {
                lemma_count_dir_take_succ(ds, GridExtension::Right, idx as int);
                lemma_count_dir_take_succ(ds, GridExtension::Up, idx as int);
                lemma_count_dir_take_succ(ds, GridExtension::Left, idx as int);
                lemma_count_dir_take_succ(ds, GridExtension::Down, idx as int);
            }
            match self.extensions[idx] {
                GridExtension::Right => {
                    count_right = count_right + 1;
                },
                GridExtension::Up => {
                    count_up = count_up + 1;
                },
                GridExtension::Left => {
                    count_left = count_left + 1;
                },
                GridExtension::Down => {
                    count_down = count_down + 1;
                },
            }
            idx = idx + 1;
        }
        proof {
            lemma_count_dir_take_all(ds, GridExtension::Right);
            lemma_count_dir_take_all(ds, GridExtension::Up);
            lemma_count_dir_take_all(ds, GridExtension::Left);
            lemma_count_dir_take_all(ds, GridExtension::Down);
            lemma_count_dir_nonneg(ds, GridExtension::Right);
            lemma_count_dir_nonneg(ds, GridExtension::Up);
            lemma_count_dir_nonneg(ds, GridExtension::Left);
            lemma_count_dir_nonneg(ds, GridExtension::Down);
        }
        let new_width: usize = self.grid_graph.get_width() + 2 * count_right + 2 * count_left;
        let new_height: usize = self.grid_graph.get_height() + 2 * count_up + 2 * count_down;
        let new_start = Coord {
            x: self.start_coords.x + 2 * count_left,
            y: self.start_coords.y + 2 * count_down,
        };
        let new_end = Coord {
            x: self.end_coords.x + 2 * count_left,
            y: self.end_coords.y + 2 * count_down,
        };
        self.grid_graph = GridGraph::new(new_width, new_height);
        self.start_coords = new_start;
        self.end_coords = new_end;
        self.extensions = Vec::new();
    }

    /// Join the solutions of the two halves of a horizontal split into
    /// a solution of this problem, placing first whichever half holds
    /// the start vertex.
    fn join_split_halves_h(&self, lo: &GridProblem, hi: &GridProblem, pl: GridPath, ph: GridPath) -> (r: GridPath)
        requires
            self.wf(),
            self.h_split_pair(*lo, *hi),
            pl.is_ham(
                lo.grid_graph.n as int,
                lo.grid_graph.m as int,
                lo.start_coords,
                lo.end_coords,
            ),
            ph.is_ham(
                hi.grid_graph.n as int,
                hi.grid_graph.m as int,
                hi.start_coords,
                hi.end_coords,
            ),
        ensures
            r.is_ham(
                self.grid_graph.n as int,
                self.grid_graph.m as int,
                self.start_coords,
                self.end_coords,
            ),
    {
        let s = self.start_coords;
        let t = self.end_coords;
        let full = if s.y < t.y {
            stack_bottom_top(pl, ph)
        } else {
            stack_top_bottom(pl, ph)
        };
        proof {
            assert(full.vertex_order@.first() == s);
            assert(full.vertex_order@.last() == t);
        }
        full
    }

    /// Join the solutions of the two halves of a vertical split into a
    /// solution of this problem, stacking their transposes and
    /// transposing back.
    fn join_split_halves_v(&self, le: &GridProblem, ri: &GridProblem, pl: GridPath, pr: GridPath) -> (r: GridPath)
        requires
            self.wf(),
            self.v_split_pair(*le, *ri),
            pl.is_ham(
                le.grid_graph.n as int,
                le.grid_graph.m as int,
                le.start_coords,
                le.end_coords,
            ),
            pr.is_ham(
                ri.grid_graph.n as int,
                ri.grid_graph.m as int,
                ri.start_coords,
                ri.end_coords,
            ),
        ensures
            r.is_ham(
                self.grid_graph.n as int,
                self.grid_graph.m as int,
                self.start_coords,
                self.end_coords,
            ),
    {
        let s = self.start_coords;
        let t = self.end_coords;
        proof {
            vstd::arithmetic::mul::lemma_mul_strictly_positive(
                le.grid_graph.n as int,
                le.grid_graph.m as int,
            );
            vstd::arithmetic::mul::lemma_mul_strictly_positive(
                ri.grid_graph.n as int,
                ri.grid_graph.m as int,
            );
            let hh = self.grid_graph.m as int;
            let ln = le.grid_graph.n as int;
            let rn = ri.grid_graph.n as int;
            assert(ln * hh == hh * ln) by (nonlinear_arith);
            assert(rn * hh == hh * rn) by (nonlinear_arith);
            assert(hh * (ln + rn) == (ln + rn) * hh) by (nonlinear_arith);
        }
        let tl = pl.transposed();
        let tr = pr.transposed();
        proof {
            assert(tl.vertex_order@.last() == crate::gridpath::transposed_coord(
                pl.vertex_order@.last(),
            ));
            assert(tl.vertex_order@.first() == crate::gridpath::transposed_coord(
                pl.vertex_order@.first(),
            ));
            assert(tr.vertex_order@.last() == crate::gridpath::transposed_coord(
                pr.vertex_order@.last(),
            ));
            assert(tr.vertex_order@.first() == crate::gridpath::transposed_coord(
                pr.vertex_order@.first(),
            ));
        }
        let stk = if s.x < t.x {
            stack_bottom_top(tl, tr)
        } else {
            stack_top_bottom(tl, tr)
        };
        let full = stk.transposed();
        proof {
            vstd::arithmetic::mul::lemma_mul_strictly_positive(stk.n as int, stk.m as int);
            assert(stk.vertex_order@.len() >= 1);
            assert(full.vertex_order@.last() == crate::gridpath::transposed_coord(
                stk.vertex_order@.last(),
            ));
            assert(full.vertex_order@.first() == crate::gridpath::transposed_coord(
                stk.vertex_order@.first(),
            ));
            assert(full.vertex_order@.first() == s);
            assert(full.vertex_order@.last() == t);
            let ww = self.grid_graph.n as int;
            let hh = self.grid_graph.m as int;
            assert(hh * ww == ww * hh) by (nonlinear_arith);
        }
        full
    }

    /// Replay the recorded strips on a solution of the current grid,
    /// innermost band first, and restore this problem to the recorded
    /// target. The replay fails only if some band finds no boundary
    /// edge; with nothing recorded it always succeeds.
    fn replay_strips(&mut self, solution_path: GridPath, Ghost(orig): Ghost<GridProblem>) -> (r:
        Option<GridPath>)
        requires
            old(self).wf(),
            orig.wf(),
            solution_path.is_ham(
                old(self).grid_graph.n as int,
                old(self).grid_graph.m as int,
                old(self).start_coords,
                old(self).end_coords,
            ),
            old(self).recon_width() == orig.grid_graph.n as int,
            old(self).recon_height() == orig.grid_graph.m as int,
            old(self).recon_start_x() == orig.start_coords.x as int,
            old(self).recon_start_y() == orig.start_coords.y as int,
            old(self).recon_end_x() == orig.end_coords.x as int,
            old(self).recon_end_y() == orig.end_coords.y as int,
        ensures
            final(self).grid_graph == orig.grid_graph,
            final(self).start_coords == orig.start_coords,
            final(self).end_coords == orig.end_coords,
            final(self).extensions@.len() == 0,
            final(self).wf(),
            match r {
                Some(p) => p.is_ham(
                    orig.grid_graph.n as int,
                    orig.grid_graph.m as int,
                    orig.start_coords,
                    orig.end_coords,
                ),
                None => true,
            },
            old(self).extensions@.len() == 0 ==> r == Some(solution_path),
    {
        let mut solution_path = solution_path;
        let elen = self.extensions.len();
        let mut rev: Vec<GridExtension> = Vec::new();
        let mut k: usize = elen;
        while k > 0
            invariant
                k <= elen,
                elen == self.extensions@.len(),
                rev@.len() == elen - k,
                forall|j: int|
                    0 <= j < elen - k ==> #[trigger] rev@[j] == self.extensions@[elen - 1 - j],
            decreases k,
        {
            k = k - 1;
            rev.push(self.extensions[k]);
        }
        proof {
            lemma_count_dir_reverse(self.extensions@, rev@, GridExtension::Right);
            lemma_count_dir_reverse(self.extensions@, rev@, GridExtension::Up);
            lemma_count_dir_reverse(self.extensions@, rev@, GridExtension::Left);
            lemma_count_dir_reverse(self.extensions@, rev@, GridExtension::Down);
        }
        let res = solution_path.extend_many(&rev);
        match res {
            Ok(()) => {
                proof {
                    let nn = self.grid_graph.n as int;
                    let mm = self.grid_graph.m as int;
                    vstd::arithmetic::mul::lemma_mul_strictly_positive(nn, mm);
                    if nn * mm == 1 {
                        assert(nn == 1 && mm == 1) by (nonlinear_arith)
                            requires
                                nn >= 1,
                                mm >= 1,
                                nn * mm == 1,
                        ;
                        assert(self.start_coords == self.end_coords);
                        assert(false);
                    }
                    assert(solution_path.is_ham(
                        orig.grid_graph.n as int,
                        orig.grid_graph.m as int,
                        orig.start_coords,
                        orig.end_coords,
                    ));
                }
                self.reconstruct();
                Some(solution_path)
            },
            Err(_) => {
                self.reconstruct();
                None
            },
        }
    }

    /// Solve the grid problem by stripping and splitting it into
    /// sub-problems down to a line, a prime case, or a join of two
    /// solved halves, then replaying the recorded strips on the
    /// solution path, innermost band first.
    ///
    /// A returned path is a full Hamiltonian path of the original grid
    /// between the original endpoints, and implies the problem was
    /// acceptable; an unacceptable problem always yields none, and on a
    /// one-wide grid a path comes back exactly for the acceptable
    /// instances. The problem itself is always restored before
    /// returning.
    #[verifier::loop_isolation(false)]
    #[verifier::rlimit(100)]
    pub fn solve(&mut self) -> (r: Option<GridPath>)
        requires
            old(self).wf(),
            old(self).extensions@.len() == 0,
        ensures
            final(self).grid_graph == old(self).grid_graph,
            final(self).start_coords == old(self).start_coords,
            final(self).end_coords == old(self).end_coords,
            final(self).extensions@.len() == 0,
            final(self).wf(),
            match r {
                Some(p) => p.is_ham(
                    old(self).grid_graph.n as int,
                    old(self).grid_graph.m as int,
                    old(self).start_coords,
                    old(self).end_coords,
                ) && old(self).acceptable_spec(),
                None => true,
            },
            !old(self).acceptable_spec() ==> r is None,
            (old(self).grid_graph.n == 1 || old(self).grid_graph.m == 1) ==> ((r is Some)
                <==> old(self).acceptable_spec()),
            (old(self).grid_graph.n == 1 || old(self).grid_graph.m == 1) ==> match r {
                Some(p) => p.vertex_order@ == line_order(
                    old(self).grid_graph.n as int,
                    old(self).grid_graph.m as int,
                    old(self).start_coords,
                ),
                None => true,
            },
            ({
                &&& old(self).no_strip_applies()
                &&& old(self).acceptable_spec()
                &&& exists|i: int|
                    0 <= i < prime_table(
                        old(self).grid_graph.n as int,
                        old(self).grid_graph.m as int,
                    ).len() && prime_row_matches(
                        #[trigger] prime_table(
                            old(self).grid_graph.n as int,
                            old(self).grid_graph.m as int,
                        )[i],
                        old(self).grid_graph.n as int,
                        old(self).grid_graph.m as int,
                        old(self).start_coords,
                        old(self).end_coords,
                    )
            }) ==> match r {
                Some(p) => exists|i: int|
                    {
                        &&& 0 <= i < prime_table(
                            old(self).grid_graph.n as int,
                            old(self).grid_graph.m as int,
                        ).len()
                        &&& prime_row_matches(
                            #[trigger] prime_table(
                                old(self).grid_graph.n as int,
                                old(self).grid_graph.m as int,
                            )[i],
                            old(self).grid_graph.n as int,
                            old(self).grid_graph.m as int,
                            old(self).start_coords,
                            old(self).end_coords,
                        )
                        &&& p.vertex_order@ == prime_table(
                            old(self).grid_graph.n as int,
                            old(self).grid_graph.m as int,
                        )[i]
                        &&& forall|j: int|
                            0 <= j < i ==> !prime_row_matches(
                                prime_table(
                                    old(self).grid_graph.n as int,
                                    old(self).grid_graph.m as int,
                                )[j],
                                old(self).grid_graph.n as int,
                                old(self).grid_graph.m as int,
                                old(self).start_coords,
                                old(self).end_coords,
                            )
                    },
                None => false,
            },
        decreases old(self).grid_graph.n * old(self).grid_graph.m,
    {
        if !self.is_acceptable() {
            return None;
        }
        let ghost orig = *old(self);
        // shrink the problem by stripping as long as any side allows it
        #[verifier::loop_isolation(true)]
        loop
            invariant_except_break
                self.wf(),
                self.acceptable_spec(),
                self.grid_graph.n <= orig.grid_graph.n,
                self.grid_graph.m <= orig.grid_graph.m,
                self.recon_width() == orig.grid_graph.n as int,
                self.recon_height() == orig.grid_graph.m as int,
                self.recon_start_x() == orig.start_coords.x as int,
                self.recon_start_y() == orig.start_coords.y as int,
                self.recon_end_x() == orig.end_coords.x as int,
                self.recon_end_y() == orig.end_coords.y as int,
                (orig.grid_graph.n == 1 || orig.grid_graph.m == 1) ==> (self.grid_graph
                    == orig.grid_graph && self.start_coords == orig.start_coords
                    && self.end_coords == orig.end_coords && self.extensions@.len() == 0),
                orig.no_strip_applies() ==> (self.grid_graph == orig.grid_graph
                    && self.start_coords == orig.start_coords && self.end_coords
                    == orig.end_coords && self.extensions@.len() == 0),
            ensures
                self.wf(),
                self.acceptable_spec(),
                self.grid_graph.n <= orig.grid_graph.n,
                self.grid_graph.m <= orig.grid_graph.m,
                self.recon_width() == orig.grid_graph.n as int,
                self.recon_height() == orig.grid_graph.m as int,
                self.recon_start_x() == orig.start_coords.x as int,
                self.recon_start_y() == orig.start_coords.y as int,
                self.recon_end_x() == orig.end_coords.x as int,
                self.recon_end_y() == orig.end_coords.y as int,
                (orig.grid_graph.n == 1 || orig.grid_graph.m == 1) ==> (self.grid_graph
                    == orig.grid_graph && self.start_coords == orig.start_coords
                    && self.end_coords == orig.end_coords && self.extensions@.len() == 0),
                orig.no_strip_applies() ==> (self.grid_graph == orig.grid_graph
                    && self.start_coords == orig.start_coords && self.end_coords
                    == orig.end_coords && self.extensions@.len() == 0),
            decreases self.grid_graph.n * self.grid_graph.m,
        {
            let ghost before = *self;
            let stripped = self.strip();
            if !stripped {
                break;
            }
            proof {
                if orig.grid_graph.n == 1 || orig.grid_graph.m == 1 {
                    lemma_dim1_acceptable_iff_ends(
                        before.grid_graph.n as int,
                        before.grid_graph.m as int,
                        before.start_coords,
                        before.end_coords,
                    );
                    assert(false);
                }
                if orig.no_strip_applies() {
                    assert(!before.can_strip_right());
                    assert(!before.can_strip_up());
                    assert(!before.can_strip_left());
                    assert(!before.can_strip_down());
                    assert(false);
                }
                let nn = before.grid_graph.n as int;
                let mm = before.grid_graph.m as int;
                assert((nn - 2) * mm < nn * mm) by (nonlinear_arith)
                    requires
                        nn >= 1,
                        mm >= 1,
                ;
                assert(nn * (mm - 2) < nn * mm) by (nonlinear_arith)
                    requires
                        nn >= 1,
                        mm >= 1,
                ;
            }
        }
        let w = self.grid_graph.get_width();
        let h = self.grid_graph.get_height();
        let s = self.start_coords;
        let t = self.end_coords;
        let sol_opt: Option<GridPath>;
        if w == 1 || h == 1 {
            proof {
                lemma_dim1_acceptable_iff_ends(w as int, h as int, s, t);
                if line_far(w as int, h as int) == (Coord { x: 0, y: 0 }) {
                    assert(w == 1 && h == 1);
                    assert(false);
                }
            }
            let p = linear_path(w, h, s);
            proof {
                assert(line_other(w as int, h as int, s) == t);
            }
            sol_opt = Some(p);
        } else {
            let prime = GridPath::get_prime(w, h, s, t);
            match prime {
                Some(p) => {
                    sol_opt = Some(p);
                },
                None => {
                    let hsplit = self.split_horizontally();
                    match hsplit {
                        Some(pair) => {
                            let (mut lo, mut hi) = pair;
                            proof {
                                lemma_sub_product_smaller(
                                    lo.grid_graph.n as int,
                                    lo.grid_graph.m as int,
                                    orig.grid_graph.n as int,
                                    orig.grid_graph.m as int,
                                    w as int,
                                    h as int,
                                );
                                lemma_sub_product_smaller(
                                    hi.grid_graph.n as int,
                                    hi.grid_graph.m as int,
                                    orig.grid_graph.n as int,
                                    orig.grid_graph.m as int,
                                    w as int,
                                    h as int,
                                );
                            }
                            let pl_opt = lo.solve();
                            let ph_opt = hi.solve();
                            match (pl_opt, ph_opt) {
                                (Some(pl), Some(ph)) => {
                                    let full = self.join_split_halves_h(&lo, &hi, pl, ph);
                                    sol_opt = Some(full);
                                },
                                _ => {
                                    sol_opt = None;
                                },
                            }
                        },
                        None => {
                            let vsplit = self.split_vertically();
                            match vsplit {
                                Some(pair) => {
                                    let (mut le, mut ri) = pair;
                                    proof {
                                        lemma_sub_product_smaller(
                                            le.grid_graph.n as int,
                                            le.grid_graph.m as int,
                                            orig.grid_graph.n as int,
                                            orig.grid_graph.m as int,
                                            w as int,
                                            h as int,
                                        );
                                        lemma_sub_product_smaller(
                                            ri.grid_graph.n as int,
                                            ri.grid_graph.m as int,
                                            orig.grid_graph.n as int,
                                            orig.grid_graph.m as int,
                                            w as int,
                                            h as int,
                                        );
                                    }
                                    let pl_opt = le.solve();
                                    let pr_opt = ri.solve();
                                    match (pl_opt, pr_opt) {
                                        (Some(pl), Some(pr)) => {
                                            let full = self.join_split_halves_v(&le, &ri, pl, pr);
                                            sol_opt = Some(full);
                                        },
                                        _ => {
                                            sol_opt = None;
                                        },
                                    }
                                },
                                None => {
                                    sol_opt = None;
                                },
                            }
                        },
                    }
                },
            }
        }
        match sol_opt {
            Some(solution_path) => self.replay_strips(solution_path, Ghost(orig)),
            None => {
                self.reconstruct();
                None
            },
        }
    }
}

/// A sub-grid with both dimensions bounded by the current grid and one
/// dimension strictly smaller has strictly fewer vertices than the
/// grid the recursion started from.
proof fn lemma_sub_product_smaller(an: int, am: int, on: int, om: int, cn: int, cm: int)
    requires
        1 <= an,
        1 <= am,
        1 <= cn <= on,
        1 <= cm <= om,
        an <= cn,
        am <= cm,
        an < cn || am < cm,
    ensures
        an * am < on * om,
{
    assert(an * am < cn * cm) by (nonlinear_arith)
        requires
            1 <= an,
            1 <= am,
            1 <= cn,
            1 <= cm,
            an <= cn,
            am <= cm,
            an < cn || am < cm,
    ;
    vstd::arithmetic::mul::lemma_mul_upper_bound(cn, on, cm, om);
}

/// Decide acceptability for the grid of the given dimensions and the
/// given endpoints.
fn acceptable_of(n: usize, m: usize, s: Coord, t: Coord) -> (r: bool)
    requires
        n >= 1,
        m >= 1,
        in_bounds(n as int, m as int, s),
        in_bounds(n as int, m as int, t),
    ensures
        r == acceptable(n as int, m as int, s, t),
{
    let g = GridGraph::new(n, m);
    let cc = g.are_color_compatible(s, t);
    let fb = g.is_forbidden(s, t);
    cc && !fb
}

/// The straight-line Hamiltonian path of a one-wide grid, oriented so
/// that its first vertex is `start`.
#[verifier::loop_isolation(false)]
fn linear_path(n: usize, m: usize, start: Coord) -> (r: GridPath)
    requires
        n >= 1,
        m >= 1,
        n == 1 || m == 1,
        n * m <= usize::MAX,
        start == (Coord { x: 0, y: 0 }) || start == line_far(n as int, m as int),
    ensures
        r.is_ham(n as int, m as int, start, line_other(n as int, m as int, start)),
        r.vertex_order@ == line_order(n as int, m as int, start),
{
    proof {
        assert(n * m == if n == 1 {
            m as int
        } else {
            n as int
        }) by (nonlinear_arith)
            requires
                n >= 1,
                m >= 1,
                n == 1 || m == 1,
        ;
    }
    let mut vo: Vec<Coord> = Vec::new();
    if n == 1 {
        if start.y == 0 {
            let mut k: usize = 0;
            while k < m
                invariant
                    k <= m,
                    vo@.len() == k,
                    forall|j: int| 0 <= j < k ==> #[trigger] vo@[j] == (Coord { x: 0, y: j as usize }),
                decreases m - k,
            {
                vo.push(Coord { x: 0, y: k });
                k = k + 1;
            }
        } else {
            let mut k: usize = 0;
            while k < m
                invariant
                    k <= m,
                    vo@.len() == k,
                    forall|j: int|
                        0 <= j < k ==> #[trigger] vo@[j] == (Coord {
                            x: 0,
                            y: (m - 1 - j) as usize,
                        }),
                decreases m - k,
            {
                vo.push(Coord { x: 0, y: m - 1 - k });
                k = k + 1;
            }
        }
    } else {
        if start.x == 0 {
            let mut k: usize = 0;
            while k < n
                invariant
                    k <= n,
                    vo@.len() == k,
                    forall|j: int| 0 <= j < k ==> #[trigger] vo@[j] == (Coord { x: j as usize, y: 0 }),
                decreases n - k,
            {
                vo.push(Coord { x: k, y: 0 });
                k = k + 1;
            }
        } else {
            let mut k: usize = 0;
            while k < n
                invariant
                    k <= n,
                    vo@.len() == k,
                    forall|j: int|
                        0 <= j < k ==> #[trigger] vo@[j] == (Coord {
                            x: (n - 1 - j) as usize,
                            y: 0,
                        }),
                decreases n - k,
            {
                vo.push(Coord { x: n - 1 - k, y: 0 });
                k = k + 1;
            }
        }
    }
    let r = GridPath { n, m, vertex_order: vo };
    proof {
        assert forall|q: int| 0 < q < r.vertex_order@.len() implies coords_adjacent(
            r.vertex_order@[q - 1],
            #[trigger] r.vertex_order@[q],
        ) by {}
        assert(r.vertex_order@ =~= line_order(n as int, m as int, start));
    }
    r
}

} // verus!
