//! Paths over a grid: an ordered sequence of pairwise-distinct,
//! consecutively adjacent vertices, together with the four band
//! extensions that grow a path by a two-wide strip on any side, and
//! the table of prime solutions for the small base cases.

use vstd::prelude::*;

use crate::GridError;
use crate::gridextension::GridExtension;
use crate::gridextension::count_dir;
use crate::gridextension::count_h;
use crate::gridextension::count_v;
use crate::gridextension::lemma_count_dir_nonneg;
use crate::gridextension::lemma_count_dir_take_all;
use crate::gridextension::lemma_count_dir_take_le;
use crate::gridextension::lemma_count_dir_take_succ;
use crate::gridgraph::Coord;
use crate::gridgraph::in_bounds;

verus! {

/// Whether two vertices are joined by a grid edge: they differ by one
/// in exactly one coordinate.
pub open spec fn coords_adjacent(a: Coord, b: Coord) -> bool {
    ||| (a.x == b.x && (a.y + 1 == b.y || b.y + 1 == a.y))
    ||| (a.y == b.y && (a.x + 1 == b.x || b.x + 1 == a.x))
}

/// Every vertex of the sequence lies inside the `n` by `m` grid.
pub open spec fn seq_in_bounds(n: int, m: int, s: Seq<Coord>) -> bool {
    forall|i: int| 0 <= i < s.len() ==> in_bounds(n, m, #[trigger] s[i])
}

/// Every consecutive pair of the sequence is grid-adjacent.
pub open spec fn seq_adjacent(s: Seq<Coord>) -> bool {
    forall|i: int| 0 < i < s.len() ==> coords_adjacent(s[i - 1], #[trigger] s[i])
}

/// No vertex repeats in the sequence.
pub open spec fn seq_distinct(s: Seq<Coord>) -> bool {
    forall|i: int, j: int| 0 <= i < j < s.len() ==> #[trigger] s[i] != #[trigger] s[j]
}

/// The path invariants: vertices in range, consecutive pairs adjacent,
/// and no repetitions.
pub open spec fn valid_path(n: int, m: int, s: Seq<Coord>) -> bool {
    seq_in_bounds(n, m, s) && seq_adjacent(s) && seq_distinct(s)
}

/// The sequence contains an edge lying inside the row `y`: two
/// consecutive vertices whose `y` coordinate both equal `y`.
pub open spec fn has_row_edge(s: Seq<Coord>, y: int) -> bool {
    exists|i: int| 0 < i < s.len() && s[i - 1].y == y && #[trigger] s[i].y == y
}

/// The sequence contains an edge lying inside the column `x`.
pub open spec fn has_col_edge(s: Seq<Coord>, x: int) -> bool {
    exists|i: int| 0 < i < s.len() && s[i - 1].x == x && #[trigger] s[i].x == x
}

/// The vertex with swapped coordinates.
pub open spec fn transposed_coord(c: Coord) -> Coord {
    Coord { x: c.y, y: c.x }
}

/// The sequence with every vertex's coordinates swapped.
pub open spec fn seq_transposed(s: Seq<Coord>) -> Seq<Coord> {
    Seq::new(s.len(), |i: int| transposed_coord(s[i]))
}

/// The sequence reflected top to bottom in an `m`-high grid.
pub open spec fn seq_flipped_y(m: int, s: Seq<Coord>) -> Seq<Coord> {
    Seq::new(s.len(), |i: int| Coord { x: s[i].x, y: (m - 1 - s[i].y) as usize })
}

/// The least index `i` at or after `k` such that the vertices at
/// `i - 1` and `i` both lie in the row `y`, or the length when there
/// is none.
pub open spec fn first_row_edge_from(s: Seq<Coord>, y: int, k: int) -> int
    decreases s.len() - k,
{
    if k >= s.len() {
        s.len() as int
    } else if s[k - 1].y == y && s[k].y == y {
        k
    } else {
        first_row_edge_from(s, y, k + 1)
    }
}

/// The index of the first edge of the sequence lying inside row `y`.
pub open spec fn first_row_edge(s: Seq<Coord>, y: int) -> int {
    first_row_edge_from(s, y, 1)
}

/// The U-shaped detour that replaces the boundary edge from
/// `(ax, m - 1)` to `(bx, m - 1)` when a height-2 band is attached
/// above an `n`-wide grid: a climb to the nearer side edge along row
/// `m`, a full sweep of row `m + 1`, and a return along row `m` to the
/// second endpoint's column.
pub open spec fn upper_detour(n: int, m: int, ax: int, bx: int) -> Seq<Coord> {
    if ax < bx {
        Seq::new((ax + 1) as nat, |k: int| Coord { x: (ax - k) as usize, y: m as usize })
            + Seq::new(n as nat, |k: int| Coord { x: k as usize, y: (m + 1) as usize })
            + Seq::new((n - bx) as nat, |k: int| Coord { x: (n - 1 - k) as usize, y: m as usize })
    } else {
        Seq::new((n - ax) as nat, |k: int| Coord { x: (ax + k) as usize, y: m as usize })
            + Seq::new(n as nat, |k: int| Coord { x: (n - 1 - k) as usize, y: (m + 1) as usize })
            + Seq::new((bx + 1) as nat, |k: int| Coord { x: k as usize, y: m as usize })
    }
}

/// The vertex order produced by extending an `n` by `m` path upward:
/// the U detour is spliced into the first edge on the upper boundary.
pub open spec fn extend_up_order(n: int, m: int, vo: Seq<Coord>) -> Seq<Coord> {
    let i = first_row_edge(vo, m - 1);
    vo.take(i) + upper_detour(n, m, vo[i - 1].x as int, vo[i].x as int) + vo.skip(i)
}

/// The vertex order produced by extending downward: the reflection of
/// an upward extension of the reflected path, which shifts every old
/// vertex up by 2 and splices the detour, with rows `1`, `0`, `1`,
/// into the first edge on the old lower boundary.
pub open spec fn extend_down_order(n: int, m: int, vo: Seq<Coord>) -> Seq<Coord> {
    seq_flipped_y(m + 2, extend_up_order(n, m, seq_flipped_y(m, vo)))
}

/// The vertex order produced by extending rightward: the transpose of
/// an upward extension of the transposed path.
pub open spec fn extend_right_order(n: int, m: int, vo: Seq<Coord>) -> Seq<Coord> {
    seq_transposed(extend_up_order(m, n, seq_transposed(vo)))
}

/// The vertex order produced by extending leftward: the transpose of
/// a downward extension of the transposed path, which shifts every
/// old vertex right by 2.
pub open spec fn extend_left_order(n: int, m: int, vo: Seq<Coord>) -> Seq<Coord> {
    seq_transposed(extend_down_order(m, n, seq_transposed(vo)))
}

/// The vertex order produced by one extension in the given direction.
pub open spec fn extend_order(n: int, m: int, vo: Seq<Coord>, d: GridExtension) -> Seq<Coord> {
    match d {
        GridExtension::Right => extend_right_order(n, m, vo),
        GridExtension::Up => extend_up_order(n, m, vo),
        GridExtension::Left => extend_left_order(n, m, vo),
        GridExtension::Down => extend_down_order(n, m, vo),
    }
}

/// Whether the path has an edge on the boundary named by the
/// direction, which is exactly when the extension succeeds.
pub open spec fn extend_edge_exists(n: int, m: int, vo: Seq<Coord>, d: GridExtension) -> bool {
    match d {
        GridExtension::Right => has_col_edge(vo, n - 1),
        GridExtension::Up => has_row_edge(vo, m - 1),
        GridExtension::Left => has_col_edge(vo, 0),
        GridExtension::Down => has_row_edge(vo, 0),
    }
}

/// The vertex order produced by applying each extension in order.
/// The fold is total; its value matters on the steps that succeed.
pub open spec fn extend_many_order(
    n: int,
    m: int,
    vo: Seq<Coord>,
    ds: Seq<GridExtension>,
) -> Seq<Coord>
    decreases ds.len(),
{
    if ds.len() == 0 {
        vo
    } else {
        let d = ds[0];
        let n2 = match d {
            GridExtension::Right | GridExtension::Left => n + 2,
            _ => n,
        };
        let m2 = match d {
            GridExtension::Up | GridExtension::Down => m + 2,
            _ => m,
        };
        extend_many_order(n2, m2, extend_order(n, m, vo, d), ds.skip(1))
    }
}

/// Whether every extension in the list finds a boundary edge at the
/// moment it is applied: exactly the condition for the whole
/// application to succeed.
pub open spec fn extend_many_succeeds(
    n: int,
    m: int,
    vo: Seq<Coord>,
    ds: Seq<GridExtension>,
) -> bool
    decreases ds.len(),
{
    if ds.len() == 0 {
        true
    } else {
        let d = ds[0];
        let n2 = match d {
            GridExtension::Right | GridExtension::Left => n + 2,
            _ => n,
        };
        let m2 = match d {
            GridExtension::Up | GridExtension::Down => m + 2,
            _ => m,
        };
        extend_edge_exists(n, m, vo, d) && extend_many_succeeds(
            n2,
            m2,
            extend_order(n, m, vo, d),
            ds.skip(1),
        )
    }
}

/// An edge in row `y` at index `i`, with none before it, is the first.
proof fn lemma_first_row_edge_from_at(s: Seq<Coord>, y: int, k: int, i: int)
    requires
        1 <= k <= i < s.len(),
        s[i - 1].y == y,
        s[i].y == y,
        forall|j: int| k <= j < i ==> !(s[j - 1].y == y && #[trigger] s[j].y == y),
    ensures
        first_row_edge_from(s, y, k) == i,
    decreases i - k,
{
    if k < i {
        lemma_first_row_edge_from_at(s, y, k + 1, i);
    }
}

/// An `n` by `m` grid of vertices joined by edges forming a path over
/// the grid.
pub struct GridPath {
    pub n: usize,
    pub m: usize,
    pub vertex_order: Vec<Coord>,
}

impl GridPath {
    /// The dimensions are positive and the vertex order satisfies the
    /// path invariants.
    pub open spec fn wf(&self) -> bool {
        self.n >= 1 && self.m >= 1 && valid_path(self.n as int, self.m as int, self.vertex_order@)
    }

    /// The path is a full Hamiltonian solution of the `n` by `m` grid
    /// from `s` to `t`: well formed, covering `n * m` vertices, and
    /// with the stated endpoints.
    pub open spec fn is_ham(&self, n: int, m: int, s: Coord, t: Coord) -> bool {
        &&& self.n == n
        &&& self.m == m
        &&& self.wf()
        &&& self.vertex_order@.len() == n * m
        &&& self.vertex_order@.first() == s
        &&& self.vertex_order@.last() == t
    }

    /// Initialize a grid path from its dimensions and vertex order,
    /// validating the path invariants.
    #[verifier::loop_isolation(false)]
    pub fn new(n: usize, m: usize, vertex_order: Vec<Coord>) -> (r: Option<GridPath>)
        requires
            n >= 1,
            m >= 1,
        ensures
            match r {
                Some(p) => p.n == n && p.m == m && p.vertex_order@ == vertex_order@ && p.wf(),
                None => !valid_path(n as int, m as int, vertex_order@),
            },
    {
        let len = vertex_order.len();
        let mut i: usize = 0;
        while i < len
            invariant
                i <= len,
                forall|j: int|
                    0 <= j < i ==> in_bounds(n as int, m as int, #[trigger] vertex_order@[j]),
            decreases len - i,
        {
            let v = vertex_order[i];
            if !(v.x < n && v.y < m) {
                assert(!seq_in_bounds(n as int, m as int, vertex_order@));
                return None;
            }
            i = i + 1;
        }
        let mut i: usize = 1;
        while i < len
            invariant
                1 <= i,
                forall|j: int|
                    0 < j < i ==> coords_adjacent(vertex_order@[j - 1], #[trigger] vertex_order@[j]),
            decreases len - i,
        {
            let a = vertex_order[i - 1];
            let b = vertex_order[i];
            let adj = (a.x == b.x && (a.y + 1 == b.y || b.y + 1 == a.y)) || (a.y == b.y && (a.x + 1
                == b.x || b.x + 1 == a.x));
            if !adj {
                assert(!seq_adjacent(vertex_order@));
                return None;
            }
            i = i + 1;
        }
        let mut i: usize = 0;
        while i < len
            invariant
                i <= len,
                forall|p: int, q: int|
                    0 <= p < i && p < q < len ==> #[trigger] vertex_order@[p] != #[trigger] vertex_order@[q],
            decreases len - i,
        {
            let mut j: usize = i + 1;
            while j < len
                invariant
                    i < j,
                    forall|q: int| i < q < j ==> vertex_order@[i as int] != #[trigger] vertex_order@[q],
                decreases len - j,
            {
                if vertex_order[i] == vertex_order[j] {
                    assert(!seq_distinct(vertex_order@));
                    return None;
                }
                j = j + 1;
            }
            i = i + 1;
        }
        Some(GridPath { n, m, vertex_order })
    }

    /// Check if there exists a prime solution for the given dimensions
    /// and start and end coordinates: true exactly when the table
    /// holds a row of these dimensions running from `start` to `end`.
    pub fn is_prime(width: usize, height: usize, start: Coord, end: Coord) -> (r: bool)
        ensures
            r == exists|i: int|
                0 <= i < prime_table(width as int, height as int).len() && prime_row_matches(
                    #[trigger] prime_table(width as int, height as int)[i],
                    width as int,
                    height as int,
                    start,
                    end,
                ),
    {
        match GridPath::get_prime(width, height, start, end) {
            Some(_) => true,
            None => false,
        }
    }

    /// Look up the stored prime solution for the given dimensions and
    /// start and end coordinates. The result is Some exactly when the
    /// table holds a matching row, and it carries the first matching
    /// stored row bit for bit.
    #[verifier::loop_isolation(false)]
    pub fn get_prime(width: usize, height: usize, start: Coord, end: Coord) -> (r: Option<
        GridPath,
    >)
        ensures
            (r is Some) == exists|i: int|
                0 <= i < prime_table(width as int, height as int).len() && prime_row_matches(
                    #[trigger] prime_table(width as int, height as int)[i],
                    width as int,
                    height as int,
                    start,
                    end,
                ),
            match r {
                Some(p) => {
                    &&& p.is_ham(width as int, height as int, start, end)
                    &&& exists|i: int|
                        {
                            &&& 0 <= i < prime_table(width as int, height as int).len()
                            &&& prime_row_matches(
                                #[trigger] prime_table(width as int, height as int)[i],
                                width as int,
                                height as int,
                                start,
                                end,
                            )
                            &&& p.vertex_order@ == prime_table(width as int, height as int)[i]
                            &&& forall|j: int|
                                0 <= j < i ==> !prime_row_matches(
                                    prime_table(width as int, height as int)[j],
                                    width as int,
                                    height as int,
                                    start,
                                    end,
                                )
                        }
                },
                None => true,
            },
    {
        let ghost tbl = prime_table(width as int, height as int);
        let rows = prime_rows(width, height);
        let nrows = rows.len();
        let mut idx: usize = 0;
        while idx < nrows
            invariant
                idx <= nrows,
                forall|j: int|
                    0 <= j < idx ==> !prime_row_matches(
                        #[trigger] tbl[j],
                        width as int,
                        height as int,
                        start,
                        end,
                    ),
            decreases nrows - idx,
        {
            let row = &rows[idx];
            let rlen = row.len();
            proof {
                vstd::arithmetic::mul::lemma_mul_upper_bound(width as int, 5, height as int, 5);
            }
            if rlen == width * height && rlen >= 1 && row[0] == start && row[rlen - 1] == end {
                let mut cand: Vec<Coord> = Vec::new();
                let mut k: usize = 0;
                while k < rlen
                    invariant
                        k <= rlen,
                        cand@.len() == k,
                        forall|j: int| 0 <= j < k ==> cand@[j] == row@[j],
                    decreases rlen - k,
                {
                    cand.push(row[k]);
                    k = k + 1;
                }
                proof {
                    assert(cand@ =~= row@);
                }
                match GridPath::new(width, height, cand) {
                    Some(p) => {
                        proof {
                            assert(prime_row_matches(
                                tbl[idx as int],
                                width as int,
                                height as int,
                                start,
                                end,
                            ));
                        }
                        return Some(p);
                    },
                    None => {
                        proof {
                            // every stored row is a valid path, so the
                            // validating constructor cannot refuse one
                            lemma_prime_table_valid(width as int, height as int);
                            assert(false);
                        }
                    },
                }
            }
            proof {
                assert(!prime_row_matches(tbl[idx as int], width as int, height as int, start, end));
            }
            idx = idx + 1;
        }
        proof {
            if exists|i: int|
                0 <= i < tbl.len() && prime_row_matches(
                    #[trigger] tbl[i],
                    width as int,
                    height as int,
                    start,
                    end,
                ) {
                let i0 = choose|i: int|
                    0 <= i < tbl.len() && prime_row_matches(
                        #[trigger] tbl[i],
                        width as int,
                        height as int,
                        start,
                        end,
                    );
                assert(false);
            }
        }
        None
    }

    /// Get the width of the grid path.
    pub fn get_width(&self) -> (r: usize)
        ensures
            r == self.n,
    {
        self.n
    }

    /// Get the height of the grid path.
    pub fn get_height(&self) -> (r: usize)
        ensures
            r == self.m,
    {
        self.m
    }

    /// The same path with the two axes swapped.
    #[verifier::loop_isolation(false)]
    pub(crate) fn transposed(&self) -> (r: GridPath)
        requires
            self.wf(),
        ensures
            r.n == self.m,
            r.m == self.n,
            r.vertex_order@.len() == self.vertex_order@.len(),
            forall|i: int|
                0 <= i < self.vertex_order@.len() ==> r.vertex_order@[i] == transposed_coord(
                    #[trigger] self.vertex_order@[i],
                ),
            r.wf(),
    {
        let len = self.vertex_order.len();
        let mut vo: Vec<Coord> = Vec::new();
        let mut i: usize = 0;
        while i < len
            invariant
                i <= len,
                vo@.len() == i,
                forall|j: int|
                    0 <= j < i ==> vo@[j] == transposed_coord(#[trigger] self.vertex_order@[j]),
            decreases len - i,
        {
            let v = self.vertex_order[i];
            vo.push(Coord { x: v.y, y: v.x });
            i = i + 1;
        }
        let r = GridPath { n: self.m, m: self.n, vertex_order: vo };
        proof {
            assert forall|i: int| 0 <= i < r.vertex_order@.len() implies in_bounds(
                r.n as int,
                r.m as int,
                #[trigger] r.vertex_order@[i],
            ) by {
                assert(in_bounds(self.n as int, self.m as int, self.vertex_order@[i]));
            }
            assert forall|i: int, j: int|
                0 <= i < j < r.vertex_order@.len() implies #[trigger] r.vertex_order@[i]
                != #[trigger] r.vertex_order@[j] by {
                assert(self.vertex_order@[i] != self.vertex_order@[j]);
            }
            assert forall|i: int| 0 < i < r.vertex_order@.len() implies coords_adjacent(
                r.vertex_order@[i - 1],
                #[trigger] r.vertex_order@[i],
            ) by {
                assert(coords_adjacent(self.vertex_order@[i - 1], self.vertex_order@[i]));
            }
        }
        r
    }

    /// The same path reflected top to bottom.
    #[verifier::loop_isolation(false)]
    fn flipped_y(&self) -> (r: GridPath)
        requires
            self.wf(),
        ensures
            r.n == self.n,
            r.m == self.m,
            r.vertex_order@.len() == self.vertex_order@.len(),
            forall|i: int|
                0 <= i < self.vertex_order@.len() ==> #[trigger] r.vertex_order@[i] == (Coord {
                    x: self.vertex_order@[i].x,
                    y: (self.m - 1 - self.vertex_order@[i].y) as usize,
                }),
            r.wf(),
    {
        let len = self.vertex_order.len();
        let mut vo: Vec<Coord> = Vec::new();
        let mut i: usize = 0;
        while i < len
            invariant
                i <= len,
                vo@.len() == i,
                forall|j: int|
                    0 <= j < i ==> #[trigger] vo@[j] == (Coord {
                        x: self.vertex_order@[j].x,
                        y: (self.m - 1 - self.vertex_order@[j].y) as usize,
                    }),
            decreases len - i,
        {
            let v = self.vertex_order[i];
            assert(in_bounds(self.n as int, self.m as int, v));
            vo.push(Coord { x: v.x, y: self.m - 1 - v.y });
            i = i + 1;
        }
        let r = GridPath { n: self.n, m: self.m, vertex_order: vo };
        proof {
            assert forall|i: int| 0 <= i < r.vertex_order@.len() implies in_bounds(
                r.n as int,
                r.m as int,
                #[trigger] r.vertex_order@[i],
            ) by {
                assert(in_bounds(self.n as int, self.m as int, self.vertex_order@[i]));
            }
            assert forall|i: int, j: int|
                0 <= i < j < r.vertex_order@.len() implies #[trigger] r.vertex_order@[i]
                != #[trigger] r.vertex_order@[j] by {
                assert(self.vertex_order@[i] != self.vertex_order@[j]);
                assert(in_bounds(self.n as int, self.m as int, self.vertex_order@[i]));
                assert(in_bounds(self.n as int, self.m as int, self.vertex_order@[j]));
            }
            assert forall|i: int| 0 < i < r.vertex_order@.len() implies coords_adjacent(
                r.vertex_order@[i - 1],
                #[trigger] r.vertex_order@[i],
            ) by {
                assert(coords_adjacent(self.vertex_order@[i - 1], self.vertex_order@[i]));
                assert(in_bounds(self.n as int, self.m as int, self.vertex_order@[i - 1]));
                assert(in_bounds(self.n as int, self.m as int, self.vertex_order@[i]));
            }
        }
        r
    }

    /// Extend the grid path with a height-2 band above its upper
    /// boundary, splicing a U-shaped detour into the first edge found
    /// on that boundary.
    #[verifier::loop_isolation(false)]
    #[verifier::rlimit(100)]
    #[verifier::spinoff_prover]
    fn extend_up(&mut self) -> (r: Result<(), GridError>)
        requires
            old(self).wf(),
            old(self).n * (old(self).m + 2) <= usize::MAX,
        ensures
            match r {
                Ok(()) => {
                    &&& final(self).n == old(self).n
                    &&& final(self).m == old(self).m + 2
                    &&& final(self).wf()
                    &&& final(self).vertex_order@.len() == old(self).vertex_order@.len() + 2 * old(self).n
                    &&& old(self).vertex_order@.len() >= 2
                    &&& final(self).vertex_order@.first() == old(self).vertex_order@.first()
                    &&& final(self).vertex_order@.last() == old(self).vertex_order@.last()
                    &&& has_row_edge(old(self).vertex_order@, old(self).m - 1)
                    &&& final(self).vertex_order@ == extend_up_order(
                        old(self).n as int,
                        old(self).m as int,
                        old(self).vertex_order@,
                    )
                },
                Err(e) => {
                    &&& e == GridError::NoBoundaryEdge
                    &&& *final(self) == *old(self)
                    &&& !has_row_edge(old(self).vertex_order@, old(self).m - 1)
                },
            },
    {
        let n = self.n;
        let m = self.m;
        let len = self.vertex_order.len();
        assert(m + 2 <= usize::MAX) by {
            vstd::arithmetic::mul::lemma_mul_inequality(1, n as int, (m + 2) as int);
        }
        let mut i: usize = 1;
        while i < len
            invariant
                1 <= i,
                *self == *old(self),
                forall|j: int|
                    0 < j < i ==> !(self.vertex_order@[j - 1].y == m - 1
                        && #[trigger] self.vertex_order@[j].y == m - 1),
            decreases len - i,
        {
            let a = self.vertex_order[i - 1];
            let b = self.vertex_order[i];
            if a.y == m - 1 && b.y == m - 1 {
                let ghost ov = self.vertex_order@;
                let ghost ii = i as int;
                assert(coords_adjacent(ov[ii - 1], ov[ii]));
                assert(in_bounds(n as int, m as int, ov[ii - 1]));
                assert(in_bounds(n as int, m as int, ov[ii]));
                let ax = a.x;
                let bx = b.x;
                let ext: Vec<Coord> = build_upper_detour(n, m, ax, bx);
                // splice the detour between the two boundary vertices
                let new_vo = splice_at(&self.vertex_order, i, &ext);
                proof {
                    lemma_splice_preserves_path(ov, ext@, new_vo@, n, m, ii);
                    assert(has_row_edge(ov, m - 1));
                    lemma_first_row_edge_from_at(ov, m as int - 1, 1, ii);
                    assert(ov.take(ii) =~= ov.subrange(0, ii));
                    assert(ov.skip(ii) =~= ov.subrange(ii, ov.len() as int));
                    assert(new_vo@ == extend_up_order(n as int, m as int, ov));
                }
                self.vertex_order = new_vo;
                self.m = m + 2;
                return Ok(());
            }
            i = i + 1;
        }
        assert(!has_row_edge(self.vertex_order@, m - 1));
        Err(GridError::NoBoundaryEdge)
    }

    /// Extend the grid path with a height-2 band below its lower
    /// boundary: the existing vertices shift up by 2 and the detour is
    /// spliced into the first edge found on the old lower boundary.
    fn extend_down(&mut self) -> (r: Result<(), GridError>)
        requires
            old(self).wf(),
            old(self).n * (old(self).m + 2) <= usize::MAX,
        ensures
            match r {
                Ok(()) => {
                    &&& final(self).n == old(self).n
                    &&& final(self).m == old(self).m + 2
                    &&& final(self).wf()
                    &&& final(self).vertex_order@.len() == old(self).vertex_order@.len() + 2 * old(self).n
                    &&& old(self).vertex_order@.len() >= 2
                    &&& final(self).vertex_order@.first().x == old(self).vertex_order@.first().x
                    &&& final(self).vertex_order@.first().y == old(self).vertex_order@.first().y
                        + 2
                    &&& final(self).vertex_order@.last().x == old(self).vertex_order@.last().x
                    &&& final(self).vertex_order@.last().y == old(self).vertex_order@.last().y + 2
                    &&& has_row_edge(old(self).vertex_order@, 0)
                    &&& final(self).vertex_order@ == extend_down_order(
                        old(self).n as int,
                        old(self).m as int,
                        old(self).vertex_order@,
                    )
                },
                Err(e) => {
                    &&& e == GridError::NoBoundaryEdge
                    &&& *final(self) == *old(self)
                    &&& !has_row_edge(old(self).vertex_order@, 0)
                },
            },
    {
        let ghost ov = self.vertex_order@;
        let ghost m0 = self.m as int;
        let ghost n0 = self.n as int;
        let mut f = self.flipped_y();
        let ghost f0 = f;
        match f.extend_up() {
            Ok(()) => {
                let g = f.flipped_y();
                proof {
                    let gv = g.vertex_order@;
                    if ov.len() >= 1 {
                        assert(f0.vertex_order@[0] == (Coord {
                            x: ov[0].x,
                            y: (m0 - 1 - ov[0].y) as usize,
                        }));
                        assert(gv.first() == (Coord {
                            x: f.vertex_order@.first().x,
                            y: (m0 + 2 - 1 - f.vertex_order@.first().y) as usize,
                        }));
                        let last = ov.len() - 1;
                        assert(f0.vertex_order@[last as int] == (Coord {
                            x: ov[last as int].x,
                            y: (m0 - 1 - ov[last as int].y) as usize,
                        }));
                        assert(gv.last() == (Coord {
                            x: f.vertex_order@.last().x,
                            y: (m0 + 2 - 1 - f.vertex_order@.last().y) as usize,
                        }));
                    }
                    assert forall|i: int| 0 <= i < ov.len() implies f0.vertex_order@[i]
                        == seq_flipped_y(m0, ov)[i] by {}
                    assert(f0.vertex_order@ =~= seq_flipped_y(m0, ov));
                    assert forall|i: int| 0 <= i < f.vertex_order@.len() implies gv[i]
                        == seq_flipped_y(m0 + 2, f.vertex_order@)[i] by {}
                    assert(gv =~= seq_flipped_y(m0 + 2, f.vertex_order@));
                    assert(gv == extend_down_order(n0, m0, ov));
                    assert(has_row_edge(ov, 0)) by {
                        let i = choose|i: int|
                            0 < i < f0.vertex_order@.len() && f0.vertex_order@[i - 1].y == m0 - 1
                                && #[trigger] f0.vertex_order@[i].y == m0 - 1;
                        assert(in_bounds(n0, m0, ov[i - 1]));
                        assert(in_bounds(n0, m0, ov[i]));
                        assert(ov[i - 1].y == 0 && ov[i].y == 0);
                    }
                }
                *self = g;
                Ok(())
            },
            Err(e) => {
                proof {
                    assert(!has_row_edge(ov, 0)) by {
                        if has_row_edge(ov, 0) {
                            let i = choose|i: int|
                                0 < i < ov.len() && ov[i - 1].y == 0 && #[trigger] ov[i].y == 0;
                            assert(f0.vertex_order@[i - 1] == (Coord {
                                x: ov[i - 1].x,
                                y: (m0 - 1 - ov[i - 1].y) as usize,
                            }));
                            assert(f0.vertex_order@[i] == (Coord {
                                x: ov[i].x,
                                y: (m0 - 1 - ov[i].y) as usize,
                            }));
                            assert(has_row_edge(f0.vertex_order@, m0 - 1));
                        }
                    }
                }
                Err(e)
            },
        }
    }

    /// Extend the grid path with a width-2 band beyond its right
    /// boundary, splicing a detour into the first edge found on that
    /// boundary.
    fn extend_right(&mut self) -> (r: Result<(), GridError>)
        requires
            old(self).wf(),
            (old(self).n + 2) * old(self).m <= usize::MAX,
        ensures
            match r {
                Ok(()) => {
                    &&& final(self).n == old(self).n + 2
                    &&& final(self).m == old(self).m
                    &&& final(self).wf()
                    &&& final(self).vertex_order@.len() == old(self).vertex_order@.len() + 2 * old(self).m
                    &&& old(self).vertex_order@.len() >= 2
                    &&& final(self).vertex_order@.first() == old(self).vertex_order@.first()
                    &&& final(self).vertex_order@.last() == old(self).vertex_order@.last()
                    &&& has_col_edge(old(self).vertex_order@, old(self).n - 1)
                    &&& final(self).vertex_order@ == extend_right_order(
                        old(self).n as int,
                        old(self).m as int,
                        old(self).vertex_order@,
                    )
                },
                Err(e) => {
                    &&& e == GridError::NoBoundaryEdge
                    &&& *final(self) == *old(self)
                    &&& !has_col_edge(old(self).vertex_order@, old(self).n - 1)
                },
            },
    {
        let ghost ov = self.vertex_order@;
        let ghost n0 = self.n as int;
        let ghost m0 = self.m as int;
        proof {
            let nn = old(self).n as int;
            let mm = old(self).m as int;
            assert(mm * (nn + 2) == (nn + 2) * mm) by (nonlinear_arith);
        }
        let mut t = self.transposed();
        let ghost t0 = t;
        match t.extend_up() {
            Ok(()) => {
                let g = t.transposed();
                proof {
                    let gv = g.vertex_order@;
                    if ov.len() >= 1 {
                        assert(t0.vertex_order@[0] == transposed_coord(ov[0]));
                        assert(gv.first() == transposed_coord(t.vertex_order@.first()));
                        let last = ov.len() - 1;
                        assert(t0.vertex_order@[last as int] == transposed_coord(ov[last as int]));
                        assert(gv.last() == transposed_coord(t.vertex_order@.last()));
                    }
                    assert forall|i: int| 0 <= i < ov.len() implies t0.vertex_order@[i]
                        == seq_transposed(ov)[i] by {}
                    assert(t0.vertex_order@ =~= seq_transposed(ov));
                    assert forall|i: int| 0 <= i < t.vertex_order@.len() implies gv[i]
                        == seq_transposed(t.vertex_order@)[i] by {}
                    assert(gv =~= seq_transposed(t.vertex_order@));
                    assert(gv == extend_right_order(n0, m0, ov));
                    assert(has_col_edge(ov, n0 - 1)) by {
                        let i = choose|i: int|
                            0 < i < t0.vertex_order@.len() && t0.vertex_order@[i - 1].y == n0 - 1
                                && #[trigger] t0.vertex_order@[i].y == n0 - 1;
                        assert(ov[i - 1].x == n0 - 1 && ov[i].x == n0 - 1);
                    }
                }
                *self = g;
                Ok(())
            },
            Err(e) => {
                proof {
                    assert(!has_col_edge(ov, n0 - 1)) by {
                        if has_col_edge(ov, n0 - 1) {
                            let i = choose|i: int|
                                0 < i < ov.len() && ov[i - 1].x == n0 - 1 && #[trigger] ov[i].x
                                    == n0 - 1;
                            assert(t0.vertex_order@[i - 1] == transposed_coord(ov[i - 1]));
                            assert(t0.vertex_order@[i] == transposed_coord(ov[i]));
                            assert(has_row_edge(t0.vertex_order@, n0 - 1));
                        }
                    }
                }
                Err(e)
            },
        }
    }

    /// Extend the grid path with a width-2 band beyond its left
    /// boundary: the existing vertices shift right by 2 and the detour
    /// is spliced into the first edge found on the old left boundary.
    fn extend_left(&mut self) -> (r: Result<(), GridError>)
        requires
            old(self).wf(),
            (old(self).n + 2) * old(self).m <= usize::MAX,
        ensures
            match r {
                Ok(()) => {
                    &&& final(self).n == old(self).n + 2
                    &&& final(self).m == old(self).m
                    &&& final(self).wf()
                    &&& final(self).vertex_order@.len() == old(self).vertex_order@.len() + 2 * old(self).m
                    &&& old(self).vertex_order@.len() >= 2
                    &&& final(self).vertex_order@.first().x == old(self).vertex_order@.first().x
                        + 2
                    &&& final(self).vertex_order@.first().y == old(self).vertex_order@.first().y
                    &&& final(self).vertex_order@.last().x == old(self).vertex_order@.last().x + 2
                    &&& final(self).vertex_order@.last().y == old(self).vertex_order@.last().y
                    &&& has_col_edge(old(self).vertex_order@, 0)
                    &&& final(self).vertex_order@ == extend_left_order(
                        old(self).n as int,
                        old(self).m as int,
                        old(self).vertex_order@,
                    )
                },
                Err(e) => {
                    &&& e == GridError::NoBoundaryEdge
                    &&& *final(self) == *old(self)
                    &&& !has_col_edge(old(self).vertex_order@, 0)
                },
            },
    {
        let ghost ov = self.vertex_order@;
        let ghost n0 = self.n as int;
        let ghost m0 = self.m as int;
        proof {
            let nn = old(self).n as int;
            let mm = old(self).m as int;
            assert(mm * (nn + 2) == (nn + 2) * mm) by (nonlinear_arith);
        }
        let mut t = self.transposed();
        let ghost t0 = t;
        match t.extend_down() {
            Ok(()) => {
                let g = t.transposed();
                proof {
                    let gv = g.vertex_order@;
                    if ov.len() >= 1 {
                        assert(t0.vertex_order@[0] == transposed_coord(ov[0]));
                        assert(gv.first() == transposed_coord(t.vertex_order@.first()));
                        let last = ov.len() - 1;
                        assert(t0.vertex_order@[last as int] == transposed_coord(ov[last as int]));
                        assert(gv.last() == transposed_coord(t.vertex_order@.last()));
                    }
                    assert forall|i: int| 0 <= i < ov.len() implies t0.vertex_order@[i]
                        == seq_transposed(ov)[i] by {}
                    assert(t0.vertex_order@ =~= seq_transposed(ov));
                    assert forall|i: int| 0 <= i < t.vertex_order@.len() implies gv[i]
                        == seq_transposed(t.vertex_order@)[i] by {}
                    assert(gv =~= seq_transposed(t.vertex_order@));
                    assert(gv == extend_left_order(n0, m0, ov));
                    assert(has_col_edge(ov, 0)) by {
                        let i = choose|i: int|
                            0 < i < t0.vertex_order@.len() && t0.vertex_order@[i - 1].y == 0
                                && #[trigger] t0.vertex_order@[i].y == 0;
                        assert(ov[i - 1].x == 0 && ov[i].x == 0);
                    }
                }
                *self = g;
                Ok(())
            },
            Err(e) => {
                proof {
                    assert(!has_col_edge(ov, 0)) by {
                        if has_col_edge(ov, 0) {
                            let i = choose|i: int|
                                0 < i < ov.len() && ov[i - 1].x == 0 && #[trigger] ov[i].x == 0;
                            assert(t0.vertex_order@[i - 1] == transposed_coord(ov[i - 1]));
                            assert(t0.vertex_order@[i] == transposed_coord(ov[i]));
                            assert(has_row_edge(t0.vertex_order@, 0));
                        }
                    }
                }
                Err(e)
            },
        }
    }

    /// Extend the grid path by a two-wide band in the given direction.
    /// On success the enclosing dimensions grow by exactly 2 along the
    /// corresponding axis and the vertex count grows by exactly twice
    /// the other dimension; extending left or down shifts every vertex,
    /// and in particular both endpoints, by 2 along that axis. The call
    /// fails exactly when the path has no edge on the named boundary.
    pub fn extend(&mut self, direction: GridExtension) -> (r: Result<(), GridError>)
        requires
            old(self).wf(),
            match direction {
                GridExtension::Right | GridExtension::Left => (old(self).n + 2) * old(self).m
                    <= usize::MAX,
                GridExtension::Up | GridExtension::Down => old(self).n * (old(self).m + 2)
                    <= usize::MAX,
            },
        ensures
            match r {
                Ok(()) => {
                    &&& final(self).wf()
                    &&& old(self).vertex_order@.len() >= 2
                    &&& extend_edge_exists(
                        old(self).n as int,
                        old(self).m as int,
                        old(self).vertex_order@,
                        direction,
                    )
                    &&& final(self).vertex_order@ == extend_order(
                        old(self).n as int,
                        old(self).m as int,
                        old(self).vertex_order@,
                        direction,
                    )
                    &&& match direction {
                        GridExtension::Right | GridExtension::Left => final(self).n == old(self).n
                            + 2 && final(self).m == old(self).m
                            && final(self).vertex_order@.len() == old(self).vertex_order@.len() + 2
                            * old(self).m,
                        GridExtension::Up | GridExtension::Down => final(self).n == old(self).n
                            && final(self).m == old(self).m + 2
                            && final(self).vertex_order@.len() == old(self).vertex_order@.len() + 2
                            * old(self).n,
                    }
                    &&& match direction {
                        GridExtension::Right | GridExtension::Up => {
                            &&& final(self).vertex_order@.first() == old(self).vertex_order@.first()
                            &&& final(self).vertex_order@.last() == old(self).vertex_order@.last()
                        },
                        GridExtension::Left => {
                            &&& final(self).vertex_order@.first().x == old(self).vertex_order@.first().x + 2
                            &&& final(self).vertex_order@.first().y == old(self).vertex_order@.first().y
                            &&& final(self).vertex_order@.last().x == old(self).vertex_order@.last().x + 2
                            &&& final(self).vertex_order@.last().y == old(self).vertex_order@.last().y
                        },
                        GridExtension::Down => {
                            &&& final(self).vertex_order@.first().x == old(self).vertex_order@.first().x
                            &&& final(self).vertex_order@.first().y == old(self).vertex_order@.first().y + 2
                            &&& final(self).vertex_order@.last().x == old(self).vertex_order@.last().x
                            &&& final(self).vertex_order@.last().y == old(self).vertex_order@.last().y + 2
                        },
                    }
                },
                Err(e) => {
                    &&& e == GridError::NoBoundaryEdge
                    &&& *final(self) == *old(self)
                    &&& match direction {
                        GridExtension::Right => !has_col_edge(
                            old(self).vertex_order@,
                            old(self).n - 1,
                        ),
                        GridExtension::Up => !has_row_edge(
                            old(self).vertex_order@,
                            old(self).m - 1,
                        ),
                        GridExtension::Left => !has_col_edge(old(self).vertex_order@, 0),
                        GridExtension::Down => !has_row_edge(old(self).vertex_order@, 0),
                    }
                },
            },
    {
        match direction {
            GridExtension::Right => self.extend_right(),
            GridExtension::Up => self.extend_up(),
            GridExtension::Left => self.extend_left(),
            GridExtension::Down => self.extend_down(),
        }
    }

    /// Extend the grid path in each of the given directions in order,
    /// stopping at the first extension that finds no boundary edge.
    /// On success the dimensions grow by 2 per direction along the
    /// matching axis, a full path stays full for the grown grid, and
    /// the endpoints shift by 2 for every leftward or downward band.
    #[verifier::loop_isolation(false)]
    pub fn extend_many(&mut self, extensions: &Vec<GridExtension>) -> (r: Result<(), GridError>)
        requires
            old(self).wf(),
            (old(self).n + 2 * count_h(extensions@)) * (old(self).m + 2 * count_v(extensions@))
                <= usize::MAX,
        ensures
            final(self).wf(),
            match r {
                Ok(()) => true,
                Err(e) => e == GridError::NoBoundaryEdge,
            },
            extensions@.len() == 0 ==> r is Ok && *final(self) == *old(self),
            (r is Ok) == extend_many_succeeds(
                old(self).n as int,
                old(self).m as int,
                old(self).vertex_order@,
                extensions@,
            ),
            r is Ok ==> final(self).vertex_order@ == extend_many_order(
                old(self).n as int,
                old(self).m as int,
                old(self).vertex_order@,
                extensions@,
            ),
            r is Ok ==> final(self).n == old(self).n + 2 * count_h(extensions@) && final(self).m
                == old(self).m + 2 * count_v(extensions@),
            r is Ok && old(self).vertex_order@.len() == old(self).n * old(self).m
                ==> final(self).vertex_order@.len() == final(self).n * final(self).m,
            r is Ok && old(self).vertex_order@.len() >= 2 ==> {
                &&& final(self).vertex_order@.len() >= 2
                &&& final(self).vertex_order@.first().x == old(self).vertex_order@.first().x + 2
                    * count_dir(extensions@, GridExtension::Left)
                &&& final(self).vertex_order@.first().y == old(self).vertex_order@.first().y + 2
                    * count_dir(extensions@, GridExtension::Down)
                &&& final(self).vertex_order@.last().x == old(self).vertex_order@.last().x + 2
                    * count_dir(extensions@, GridExtension::Left)
                &&& final(self).vertex_order@.last().y == old(self).vertex_order@.last().y + 2
                    * count_dir(extensions@, GridExtension::Down)
            },
    {
        let ghost ds = extensions@;
        let dlen = extensions.len();
        proof {
            lemma_count_dir_nonneg(ds, GridExtension::Right);
            lemma_count_dir_nonneg(ds, GridExtension::Up);
            lemma_count_dir_nonneg(ds, GridExtension::Left);
            lemma_count_dir_nonneg(ds, GridExtension::Down);
        }
        if dlen == 0 {
            return Ok(());
        }
        proof {
            assert(ds.skip(0) =~= ds);
        }
        let mut idx: usize = 0;
        while idx < dlen
            invariant
                idx <= dlen,
                self.wf(),
                self.n + 2 * (count_h(ds) - count_h(ds.take(idx as int))) == old(self).n + 2
                    * count_h(ds),
                self.m + 2 * (count_v(ds) - count_v(ds.take(idx as int))) == old(self).m + 2
                    * count_v(ds),
                count_h(ds.take(idx as int)) <= count_h(ds),
                count_v(ds.take(idx as int)) <= count_v(ds),
                0 <= count_h(ds.take(idx as int)),
                0 <= count_v(ds.take(idx as int)),
                old(self).vertex_order@.len() == old(self).n * old(self).m
                    ==> self.vertex_order@.len() == self.n * self.m,
                extend_many_succeeds(
                    old(self).n as int,
                    old(self).m as int,
                    old(self).vertex_order@,
                    ds,
                ) == extend_many_succeeds(
                    self.n as int,
                    self.m as int,
                    self.vertex_order@,
                    ds.skip(idx as int),
                ),
                extend_many_order(
                    old(self).n as int,
                    old(self).m as int,
                    old(self).vertex_order@,
                    ds,
                ) == extend_many_order(
                    self.n as int,
                    self.m as int,
                    self.vertex_order@,
                    ds.skip(idx as int),
                ),
                old(self).vertex_order@.len() >= 2 ==> {
                    &&& self.vertex_order@.len() >= 2
                    &&& self.vertex_order@.first().x == old(self).vertex_order@.first().x + 2
                        * count_dir(ds.take(idx as int), GridExtension::Left)
                    &&& self.vertex_order@.first().y == old(self).vertex_order@.first().y + 2
                        * count_dir(ds.take(idx as int), GridExtension::Down)
                    &&& self.vertex_order@.last().x == old(self).vertex_order@.last().x + 2
                        * count_dir(ds.take(idx as int), GridExtension::Left)
                    &&& self.vertex_order@.last().y == old(self).vertex_order@.last().y + 2
                        * count_dir(ds.take(idx as int), GridExtension::Down)
                },
            decreases dlen - idx,
        {
            let d = extensions[idx];
            proof {
                lemma_count_dir_take_succ(ds, GridExtension::Right, idx as int);
                lemma_count_dir_take_succ(ds, GridExtension::Up, idx as int);
                lemma_count_dir_take_succ(ds, GridExtension::Left, idx as int);
                lemma_count_dir_take_succ(ds, GridExtension::Down, idx as int);
                lemma_count_dir_take_le(ds, GridExtension::Right, idx + 1);
                lemma_count_dir_take_le(ds, GridExtension::Up, idx + 1);
                lemma_count_dir_take_le(ds, GridExtension::Left, idx + 1);
                lemma_count_dir_take_le(ds, GridExtension::Down, idx + 1);
                lemma_count_dir_nonneg(ds.take(idx + 1), GridExtension::Right);
                lemma_count_dir_nonneg(ds.take(idx + 1), GridExtension::Up);
                lemma_count_dir_nonneg(ds.take(idx + 1), GridExtension::Left);
                lemma_count_dir_nonneg(ds.take(idx + 1), GridExtension::Down);
                match d {
                    GridExtension::Right | GridExtension::Left => {
                        assert((self.n + 2) * self.m <= (old(self).n + 2 * count_h(ds)) * (old(self).m + 2 * count_v(ds))) by {
                            vstd::arithmetic::mul::lemma_mul_upper_bound(
                                (self.n + 2) as int,
                                old(self).n + 2 * count_h(ds),
                                self.m as int,
                                old(self).m + 2 * count_v(ds),
                            );
                        }
                    },
                    GridExtension::Up | GridExtension::Down => {
                        assert(self.n * (self.m + 2) <= (old(self).n + 2 * count_h(ds)) * (old(self).m + 2 * count_v(ds))) by {
                            vstd::arithmetic::mul::lemma_mul_upper_bound(
                                self.n as int,
                                old(self).n + 2 * count_h(ds),
                                (self.m + 2) as int,
                                old(self).m + 2 * count_v(ds),
                            );
                        }
                    },
                }
            }
            let ghost pre_n = self.n as int;
            let ghost pre_m = self.m as int;
            let ghost pre_len = self.vertex_order@.len() as int;
            let ghost pre_vo = self.vertex_order@;
            proof {
                assert(ds.skip(idx as int).len() > 0);
                assert(ds.skip(idx as int)[0] == ds[idx as int]);
                assert(ds.skip(idx as int).skip(1) =~= ds.skip(idx as int + 1));
            }
            match self.extend(d) {
                Ok(()) => {
                    proof {
                        assert(extend_edge_exists(pre_n, pre_m, pre_vo, d));
                        assert(self.vertex_order@ == extend_order(pre_n, pre_m, pre_vo, d));
                        if old(self).vertex_order@.len() == old(self).n * old(self).m {
                            assert(pre_len == pre_n * pre_m);
                            match d {
                                GridExtension::Right | GridExtension::Left => {
                                    assert((pre_n + 2) * pre_m == pre_n * pre_m + 2 * pre_m)
                                        by (nonlinear_arith);
                                },
                                GridExtension::Up | GridExtension::Down => {
                                    assert(pre_n * (pre_m + 2) == pre_n * pre_m + 2 * pre_n)
                                        by (nonlinear_arith);
                                },
                            }
                        }
                    }
                },
                Err(e) => {
                    proof {
                        assert(!extend_edge_exists(pre_n, pre_m, pre_vo, d));
                        assert(!extend_many_succeeds(pre_n, pre_m, pre_vo, ds.skip(idx as int)));
                    }
                    return Err(e);
                },
            }
            idx = idx + 1;
        }
        proof {
            lemma_count_dir_take_all(ds, GridExtension::Right);
            lemma_count_dir_take_all(ds, GridExtension::Up);
            lemma_count_dir_take_all(ds, GridExtension::Left);
            lemma_count_dir_take_all(ds, GridExtension::Down);
            assert(ds.skip(dlen as int) =~= Seq::<GridExtension>::empty());
        }
        Ok(())
    }
}

/// The vertex sequence of `orig` with the whole of `ext` inserted
/// before position `i`.
#[verifier::loop_isolation(false)]
fn splice_at(orig: &Vec<Coord>, i: usize, ext: &Vec<Coord>) -> (r: Vec<Coord>)
    requires
        i <= orig@.len(),
    ensures
        r@ == orig@.subrange(0, i as int) + ext@ + orig@.subrange(i as int, orig@.len() as int),
{
    let ghost ov = orig@;
    let ghost ii = i as int;
    let len = orig.len();
    let mut r: Vec<Coord> = Vec::new();
    let mut j: usize = 0;
    while j < i
        invariant
            j <= i,
            r@ == ov.subrange(0, j as int),
        decreases i - j,
    {
        r.push(orig[j]);
        proof {
            assert(ov.subrange(0, j + 1) =~= ov.subrange(0, j as int).push(ov[j as int]));
        }
        j = j + 1;
    }
    let elen = ext.len();
    let mut j2: usize = 0;
    while j2 < elen
        invariant
            j2 <= elen,
            r@ == ov.subrange(0, ii) + ext@.subrange(0, j2 as int),
        decreases elen - j2,
    {
        r.push(ext[j2]);
        proof {
            assert(ov.subrange(0, ii) + ext@.subrange(0, j2 + 1) =~= (ov.subrange(0, ii)
                + ext@.subrange(0, j2 as int)).push(ext@[j2 as int]));
        }
        j2 = j2 + 1;
    }
    proof {
        assert(ext@.subrange(0, ext@.len() as int) =~= ext@);
    }
    let mut j3: usize = i;
    while j3 < len
        invariant
            i <= j3 <= len,
            r@ == ov.subrange(0, ii) + ext@ + ov.subrange(ii, j3 as int),
        decreases len - j3,
    {
        r.push(orig[j3]);
        proof {
            assert(ov.subrange(0, ii) + ext@ + ov.subrange(ii, j3 + 1) =~= (ov.subrange(0, ii)
                + ext@ + ov.subrange(ii, j3 as int)).push(ov[j3 as int]));
        }
        j3 = j3 + 1;
    }
    r
}

/// Splicing a detour with the stated shape between the two vertices of
/// an edge on the upper boundary of a valid path yields a valid path
/// of the grid grown upward by 2, with the same first and last vertex.
#[verifier::rlimit(100)]
#[verifier::spinoff_prover]
proof fn lemma_splice_preserves_path(
    ov: Seq<Coord>,
    exts: Seq<Coord>,
    nv: Seq<Coord>,
    n: usize,
    m: usize,
    ii: int,
)
    requires
        valid_path(n as int, m as int, ov),
        1 <= ii < ov.len(),
        ov[ii - 1].y == m - 1,
        ov[ii].y == m - 1,
        m + 2 <= usize::MAX,
        exts.len() == 2 * n,
        exts[0] == (Coord { x: ov[ii - 1].x, y: m }),
        exts[2 * n - 1] == (Coord { x: ov[ii].x, y: m }),
        forall|j: int|
            0 <= j < 2 * n ==> in_bounds(n as int, (m + 2) as int, #[trigger] exts[j])
                && exts[j].y >= m,
        forall|j: int| 0 < j < 2 * n ==> coords_adjacent(exts[j - 1], #[trigger] exts[j]),
        forall|p: int, q: int| 0 <= p < q < 2 * n ==> #[trigger] exts[p] != #[trigger] exts[q],
        nv == ov.subrange(0, ii) + exts + ov.subrange(ii, ov.len() as int),
    ensures
        valid_path(n as int, (m + 2) as int, nv),
        nv.len() == ov.len() + 2 * n,
        nv.first() == ov.first(),
        nv.last() == ov.last(),
{
    let len = ov.len() as int;
    assert(nv.len() == len + 2 * n);
    assert forall|q: int| 0 <= q < nv.len() implies #[trigger] nv[q] == (if q < ii {
        ov[q]
    } else if q < ii + 2 * n {
        exts[q - ii]
    } else {
        ov[q - 2 * n]
    }) by {}
    assert forall|q: int| 0 <= q < nv.len() implies in_bounds(
        n as int,
        (m + 2) as int,
        #[trigger] nv[q],
    ) by {
        if q < ii {
            assert(in_bounds(n as int, m as int, ov[q]));
        } else if q < ii + 2 * n {
        } else {
            assert(in_bounds(n as int, m as int, ov[q - 2 * n]));
        }
    }
    assert forall|q: int| 0 < q < nv.len() implies coords_adjacent(
        nv[q - 1],
        #[trigger] nv[q],
    ) by {
        if q < ii {
            assert(coords_adjacent(ov[q - 1], ov[q]));
        } else if q == ii {
            assert(nv[q - 1] == ov[ii - 1]);
            assert(nv[q] == exts[0]);
        } else if q < ii + 2 * n {
            assert(coords_adjacent(exts[q - ii - 1], exts[q - ii]));
        } else if q == ii + 2 * n {
            assert(nv[q - 1] == exts[2 * n - 1]);
            assert(nv[q] == ov[ii]);
        } else {
            assert(coords_adjacent(ov[q - 2 * n - 1], ov[q - 2 * n]));
        }
    }
    assert forall|p: int, q: int|
        0 <= p < q < nv.len() implies #[trigger] nv[p] != #[trigger] nv[q] by {
        if (p < ii || p >= ii + 2 * n) && (q < ii || q >= ii + 2 * n) {
            let op = if p < ii {
                p
            } else {
                p - 2 * n
            };
            let oq = if q < ii {
                q
            } else {
                q - 2 * n
            };
            assert(0 <= op < oq < ov.len());
            assert(ov[op] != ov[oq]);
        } else if (p < ii || p >= ii + 2 * n) {
            assert(in_bounds(n as int, m as int, nv[p]));
            assert(nv[q].y >= m);
        } else if (q < ii || q >= ii + 2 * n) {
            assert(in_bounds(n as int, m as int, nv[q]));
            assert(nv[p].y >= m);
        } else {
            assert(exts[p - ii] != exts[q - ii]);
        }
    }
    assert(nv.first() == ov.first());
    assert(nv.last() == ov[len - 1]) by {
        assert(nv[len + 2 * n - 1] == ov[len + 2 * n - 1 - 2 * n]);
    }
}

/// Build the U-shaped detour that replaces the boundary edge from
/// `(ax, m - 1)` to `(bx, m - 1)` when a height-2 band is attached
/// above an `n`-wide grid: a climb to the nearer side edge along row
/// `m`, a full sweep of row `m + 1`, and a return along row `m` to the
/// column of the second endpoint. It covers both new rows exactly once.
#[verifier::loop_isolation(false)]
#[verifier::rlimit(100)]
#[verifier::spinoff_prover]
fn build_upper_detour(n: usize, m: usize, ax: usize, bx: usize) -> (ext: Vec<Coord>)
    requires
        ax < n,
        bx < n,
        ax + 1 == bx || bx + 1 == ax,
        m + 2 <= usize::MAX,
    ensures
        ext@ == upper_detour(n as int, m as int, ax as int, bx as int),
        ext@.len() == 2 * n,
        ext@[0] == (Coord { x: ax, y: m }),
        ext@[2 * n - 1] == (Coord { x: bx, y: m }),
        forall|j: int|
            0 <= j < 2 * n ==> in_bounds(n as int, (m + 2) as int, #[trigger] ext@[j])
                && ext@[j].y >= m,
        forall|j: int| 0 < j < 2 * n ==> coords_adjacent(ext@[j - 1], #[trigger] ext@[j]),
        forall|p: int, q: int| 0 <= p < q < 2 * n ==> #[trigger] ext@[p] != #[trigger] ext@[q],
{
    let mut ext: Vec<Coord> = Vec::new();
    if ax < bx {
        // the detour first climbs toward the left edge
        let mut k: usize = 0;
        while k < ax + 1
            invariant
                k <= ax + 1,
                ext@.len() == k,
                forall|j: int|
                    0 <= j < k ==> #[trigger] ext@[j] == (Coord { x: (ax - j) as usize, y: m }),
            decreases ax + 1 - k,
        {
            ext.push(Coord { x: ax - k, y: m });
            k = k + 1;
        }
        let mut x2: usize = 0;
        while x2 < n
            invariant
                x2 <= n,
                ext@.len() == ax + 1 + x2,
                forall|j: int|
                    0 <= j < ax + 1 ==> #[trigger] ext@[j] == (Coord { x: (ax - j) as usize, y: m }),
                forall|j: int|
                    ax + 1 <= j < ax + 1 + x2 ==> #[trigger] ext@[j] == (Coord {
                        x: (j - (ax + 1)) as usize,
                        y: (m + 1) as usize,
                    }),
            decreases n - x2,
        {
            ext.push(Coord { x: x2, y: m + 1 });
            x2 = x2 + 1;
        }
        let mut k2: usize = 0;
        while k2 < n - bx
            invariant
                k2 <= n - bx,
                ext@.len() == ax + 1 + n + k2,
                forall|j: int|
                    0 <= j < ax + 1 ==> #[trigger] ext@[j] == (Coord { x: (ax - j) as usize, y: m }),
                forall|j: int|
                    ax + 1 <= j < ax + 1 + n ==> #[trigger] ext@[j] == (Coord {
                        x: (j - (ax + 1)) as usize,
                        y: (m + 1) as usize,
                    }),
                forall|j: int|
                    ax + 1 + n <= j < ax + 1 + n + k2 ==> #[trigger] ext@[j] == (Coord {
                        x: (n - 1 - (j - (ax + 1 + n))) as usize,
                        y: m,
                    }),
            decreases n - bx - k2,
        {
            ext.push(Coord { x: n - 1 - k2, y: m });
            k2 = k2 + 1;
        }
        proof {
            assert forall|j: int| 0 <= j < 2 * n implies in_bounds(
                n as int,
                (m + 2) as int,
                #[trigger] ext@[j],
            ) && ext@[j].y >= m by {}
            assert forall|j: int| 0 < j < 2 * n implies coords_adjacent(
                ext@[j - 1],
                #[trigger] ext@[j],
            ) by {
                assert(ext@[j - 1] == ext@[j - 1]);
            }
            assert forall|p: int, q: int|
                0 <= p < q < 2 * n implies #[trigger] ext@[p] != #[trigger] ext@[q] by {
                if p < ax + 1 {
                    assert(ext@[p].y == m && ext@[p].x == ax - p);
                } else if p < ax + 1 + n {
                    assert(ext@[p].y == m + 1);
                } else {
                    assert(ext@[p].y == m && ext@[p].x == n - 1 - (p - (ax + 1 + n)));
                }
                if q < ax + 1 {
                    assert(ext@[q].y == m && ext@[q].x == ax - q);
                } else if q < ax + 1 + n {
                    assert(ext@[q].y == m + 1);
                } else {
                    assert(ext@[q].y == m && ext@[q].x == n - 1 - (q - (ax + 1 + n)));
                }
            }
            assert forall|j: int| 0 <= j < 2 * n implies #[trigger] ext@[j] == upper_detour(
                n as int,
                m as int,
                ax as int,
                bx as int,
            )[j] by {}
            assert(ext@ =~= upper_detour(n as int, m as int, ax as int, bx as int));
        }
    } else {
        // the detour first climbs toward the right edge
        let mut k: usize = 0;
        while k < n - ax
            invariant
                k <= n - ax,
                ext@.len() == k,
                forall|j: int|
                    0 <= j < k ==> #[trigger] ext@[j] == (Coord { x: (ax + j) as usize, y: m }),
            decreases n - ax - k,
        {
            ext.push(Coord { x: ax + k, y: m });
            k = k + 1;
        }
        let mut x2: usize = 0;
        while x2 < n
            invariant
                x2 <= n,
                ext@.len() == n - ax + x2,
                forall|j: int|
                    0 <= j < n - ax ==> #[trigger] ext@[j] == (Coord { x: (ax + j) as usize, y: m }),
                forall|j: int|
                    n - ax <= j < n - ax + x2 ==> #[trigger] ext@[j] == (Coord {
                        x: (n - 1 - (j - (n - ax))) as usize,
                        y: (m + 1) as usize,
                    }),
            decreases n - x2,
        {
            ext.push(Coord { x: n - 1 - x2, y: m + 1 });
            x2 = x2 + 1;
        }
        let mut k2: usize = 0;
        while k2 < bx + 1
            invariant
                k2 <= bx + 1,
                ext@.len() == n - ax + n + k2,
                forall|j: int|
                    0 <= j < n - ax ==> #[trigger] ext@[j] == (Coord { x: (ax + j) as usize, y: m }),
                forall|j: int|
                    n - ax <= j < n - ax + n ==> #[trigger] ext@[j] == (Coord {
                        x: (n - 1 - (j - (n - ax))) as usize,
                        y: (m + 1) as usize,
                    }),
                forall|j: int|
                    n - ax + n <= j < n - ax + n + k2 ==> #[trigger] ext@[j] == (Coord {
                        x: (j - (n - ax + n)) as usize,
                        y: m,
                    }),
            decreases bx + 1 - k2,
        {
            ext.push(Coord { x: k2, y: m });
            k2 = k2 + 1;
        }
        proof {
            assert forall|j: int| 0 <= j < 2 * n implies in_bounds(
                n as int,
                (m + 2) as int,
                #[trigger] ext@[j],
            ) && ext@[j].y >= m by {}
            assert forall|j: int| 0 < j < 2 * n implies coords_adjacent(
                ext@[j - 1],
                #[trigger] ext@[j],
            ) by {
                assert(ext@[j - 1] == ext@[j - 1]);
            }
            assert forall|p: int, q: int|
                0 <= p < q < 2 * n implies #[trigger] ext@[p] != #[trigger] ext@[q] by {
                if p < n - ax {
                    assert(ext@[p].y == m && ext@[p].x == ax + p);
                } else if p < n - ax + n {
                    assert(ext@[p].y == m + 1);
                } else {
                    assert(ext@[p].y == m && ext@[p].x == p - (n - ax + n));
                }
                if q < n - ax {
                    assert(ext@[q].y == m && ext@[q].x == ax + q);
                } else if q < n - ax + n {
                    assert(ext@[q].y == m + 1);
                } else {
                    assert(ext@[q].y == m && ext@[q].x == q - (n - ax + n));
                }
            }
            assert forall|j: int| 0 <= j < 2 * n implies #[trigger] ext@[j] == upper_detour(
                n as int,
                m as int,
                ax as int,
                bx as int,
            )[j] by {}
            assert(ext@ =~= upper_detour(n as int, m as int, ax as int, bx as int));
        }
    }
    ext
}

/// A sequence whose head is a full path of the `nn` by `bm` grid and
/// whose tail is a full path of the `nn` by `am` grid shifted up by
/// `bm`, joined across a vertical edge, is a full path of the stacked
/// grid.
#[verifier::rlimit(100)]
#[verifier::spinoff_prover]
proof fn lemma_stacked_valid(bl: Seq<Coord>, av: Seq<Coord>, rv: Seq<Coord>, nn: int, bm: int, am: int)
    requires
        valid_path(nn, bm, bl),
        valid_path(nn, am, av),
        bl.len() >= 1,
        av.len() >= 1,
        1 <= bm,
        1 <= am,
        bm + am <= usize::MAX,
        rv.len() == bl.len() + av.len(),
        forall|j: int| 0 <= j < bl.len() ==> #[trigger] rv[j] == bl[j],
        forall|j: int|
            bl.len() <= j < rv.len() ==> #[trigger] rv[j] == (Coord {
                x: av[j - bl.len()].x,
                y: (av[j - bl.len()].y + bm) as usize,
            }),
        coords_adjacent(bl.last(), Coord { x: av.first().x, y: (av.first().y + bm) as usize }),
    ensures
        valid_path(nn, bm + am, rv),
        rv.first() == bl.first(),
        rv.last() == (Coord { x: av.last().x, y: (av.last().y + bm) as usize }),
{
    assert forall|q: int| 0 <= q < rv.len() implies in_bounds(
        nn,
        bm + am,
        #[trigger] rv[q],
    ) by {
        if q < bl.len() {
            assert(in_bounds(nn, bm, bl[q]));
        } else {
            assert(in_bounds(nn, am, av[q - bl.len()]));
        }
    }
    assert forall|q: int| 0 < q < rv.len() implies coords_adjacent(
        rv[q - 1],
        #[trigger] rv[q],
    ) by {
        if q < bl.len() {
            assert(coords_adjacent(bl[q - 1], bl[q]));
        } else if q == bl.len() {
            assert(rv[q - 1] == bl.last());
            assert(rv[q] == (Coord { x: av[0].x, y: (av[0].y + bm) as usize }));
        } else {
            assert(coords_adjacent(av[q - bl.len() - 1], av[q - bl.len()]));
            assert(in_bounds(nn, am, av[q - bl.len() - 1]));
            assert(in_bounds(nn, am, av[q - bl.len()]));
        }
    }
    assert forall|p: int, q: int|
        0 <= p < q < rv.len() implies #[trigger] rv[p] != #[trigger] rv[q] by {
        if p < bl.len() && q < bl.len() {
            assert(bl[p] != bl[q]);
        } else if p < bl.len() {
            assert(in_bounds(nn, bm, bl[p]));
            assert(rv[q].y >= bm);
        } else {
            assert(av[p - bl.len()] != av[q - bl.len()]);
            assert(in_bounds(nn, am, av[p - bl.len()]));
            assert(in_bounds(nn, am, av[q - bl.len()]));
        }
    }
    assert(rv.last() == (Coord { x: av[av.len() - 1].x, y: (av[av.len() - 1].y + bm) as usize }));
}

/// The vertex sequence of `src` with every vertex shifted up by `dy`.
#[verifier::loop_isolation(false)]
fn shifted_up(src: &Vec<Coord>, dy: usize) -> (r: Vec<Coord>)
    requires
        forall|j: int| 0 <= j < src@.len() ==> #[trigger] src@[j].y + dy <= usize::MAX,
    ensures
        r@.len() == src@.len(),
        forall|j: int|
            0 <= j < src@.len() ==> #[trigger] r@[j] == (Coord {
                x: src@[j].x,
                y: (src@[j].y + dy) as usize,
            }),
{
    let len = src.len();
    let mut r: Vec<Coord> = Vec::new();
    let mut i: usize = 0;
    while i < len
        invariant
            i <= len,
            r@.len() == i,
            forall|j: int|
                0 <= j < i ==> #[trigger] r@[j] == (Coord {
                    x: src@[j].x,
                    y: (src@[j].y + dy) as usize,
                }),
        decreases len - i,
    {
        let v = src[i];
        r.push(Coord { x: v.x, y: v.y + dy });
        i = i + 1;
    }
    r
}

/// Stack a full path of the lower grid below a full path of the upper
/// grid: the upper path's vertices shift up by the lower height and
/// follow the lower path, joined across the split edge.
#[verifier::loop_isolation(false)]
pub(crate) fn stack_bottom_top(below: GridPath, above: GridPath) -> (r: GridPath)
    requires
        below.wf(),
        above.wf(),
        below.n == above.n,
        below.vertex_order@.len() == below.n * below.m,
        above.vertex_order@.len() == above.n * above.m,
        below.n * (below.m + above.m) <= usize::MAX,
        below.vertex_order@.last().y == below.m - 1,
        above.vertex_order@.first().y == 0,
        above.vertex_order@.first().x == below.vertex_order@.last().x,
    ensures
        r.n == below.n,
        r.m == below.m + above.m,
        r.wf(),
        r.vertex_order@.len() == r.n * r.m,
        r.vertex_order@.first() == below.vertex_order@.first(),
        r.vertex_order@.last().x == above.vertex_order@.last().x,
        r.vertex_order@.last().y == above.vertex_order@.last().y + below.m,
{
    proof {
        vstd::arithmetic::mul::lemma_mul_strictly_positive(below.n as int, below.m as int);
        vstd::arithmetic::mul::lemma_mul_strictly_positive(above.n as int, above.m as int);
        vstd::arithmetic::mul::lemma_mul_inequality(1, below.n as int, (below.m + above.m) as int);
        let nn = below.n as int;
        let bm = below.m as int;
        let am = above.m as int;
        assert(nn * bm + nn * am == nn * (bm + am)) by (nonlinear_arith);
    }
    let ghost bl = below.vertex_order@;
    let ghost av = above.vertex_order@;
    let bm = below.m;
    let bn = below.n;
    let am = above.m;
    let shifted = shifted_up(&above.vertex_order, bm);
    let vo = splice_at(&below.vertex_order, below.vertex_order.len(), &shifted);
    let r = GridPath { n: bn, m: bm + am, vertex_order: vo };
    proof {
        assert(bl.subrange(0, bl.len() as int) =~= bl);
        assert(bl.subrange(bl.len() as int, bl.len() as int) =~= Seq::<Coord>::empty());
        assert(r.vertex_order@ =~= bl + shifted@);
        assert forall|j: int| bl.len() <= j < r.vertex_order@.len() implies #[trigger] r.vertex_order@[j]
            == (Coord { x: av[j - bl.len()].x, y: (av[j - bl.len()].y + bm) as usize }) by {
            assert(r.vertex_order@[j] == shifted@[j - bl.len()]);
        }
        assert(in_bounds(bn as int, am as int, av.first()));
        lemma_stacked_valid(bl, av, r.vertex_order@, bn as int, bm as int, am as int);
    }
    r
}

/// Stack a full path of the upper grid above a full path of the lower
/// grid: the upper path's vertices shift up by the lower height and
/// come first, joined to the lower path across the split edge.
#[verifier::loop_isolation(false)]
pub(crate) fn stack_top_bottom(below: GridPath, above: GridPath) -> (r: GridPath)
    requires
        below.wf(),
        above.wf(),
        below.n == above.n,
        below.vertex_order@.len() == below.n * below.m,
        above.vertex_order@.len() == above.n * above.m,
        below.n * (below.m + above.m) <= usize::MAX,
        above.vertex_order@.last().y == 0,
        below.vertex_order@.first().y == below.m - 1,
        below.vertex_order@.first().x == above.vertex_order@.last().x,
    ensures
        r.n == below.n,
        r.m == below.m + above.m,
        r.wf(),
        r.vertex_order@.len() == r.n * r.m,
        r.vertex_order@.first().x == above.vertex_order@.first().x,
        r.vertex_order@.first().y == above.vertex_order@.first().y + below.m,
        r.vertex_order@.last() == below.vertex_order@.last(),
{
    proof {
        vstd::arithmetic::mul::lemma_mul_strictly_positive(below.n as int, below.m as int);
        vstd::arithmetic::mul::lemma_mul_strictly_positive(above.n as int, above.m as int);
        vstd::arithmetic::mul::lemma_mul_inequality(1, below.n as int, (below.m + above.m) as int);
        let nn = below.n as int;
        let bm = below.m as int;
        let am = above.m as int;
        assert(nn * bm + nn * am == nn * (bm + am)) by (nonlinear_arith);
    }
    let ghost bl = below.vertex_order@;
    let ghost av = above.vertex_order@;
    let bm = below.m;
    let bn = below.n;
    let am = above.m;
    let shifted = shifted_up(&above.vertex_order, bm);
    let vo = splice_at(&below.vertex_order, 0, &shifted);
    let r = GridPath { n: bn, m: bm + am, vertex_order: vo };
    proof {
        assert(bl.subrange(0, 0) =~= Seq::<Coord>::empty());
        assert(bl.subrange(0, bl.len() as int) =~= bl);
        assert(r.vertex_order@ =~= shifted@ + bl);
        lemma_stacked_valid_reversed(bl, av, r.vertex_order@, bn as int, bm as int, am as int);
    }
    r
}

/// The mirror image of `lemma_stacked_valid`: the shifted upper path
/// comes first and the lower path follows.
#[verifier::rlimit(100)]
#[verifier::spinoff_prover]
proof fn lemma_stacked_valid_reversed(
    bl: Seq<Coord>,
    av: Seq<Coord>,
    rv: Seq<Coord>,
    nn: int,
    bm: int,
    am: int,
)
    requires
        valid_path(nn, bm, bl),
        valid_path(nn, am, av),
        bl.len() >= 1,
        av.len() >= 1,
        1 <= bm,
        1 <= am,
        bm + am <= usize::MAX,
        rv.len() == bl.len() + av.len(),
        forall|j: int|
            0 <= j < av.len() ==> #[trigger] rv[j] == (Coord {
                x: av[j].x,
                y: (av[j].y + bm) as usize,
            }),
        forall|j: int| av.len() <= j < rv.len() ==> #[trigger] rv[j] == bl[j - av.len()],
        av.last().y == 0,
        bl.first().y == bm - 1,
        bl.first().x == av.last().x,
    ensures
        valid_path(nn, bm + am, rv),
        rv.first() == (Coord { x: av.first().x, y: (av.first().y + bm) as usize }),
        rv.last() == bl.last(),
{
    assert forall|q: int| 0 <= q < rv.len() implies in_bounds(
        nn,
        bm + am,
        #[trigger] rv[q],
    ) by {
        if q < av.len() {
            assert(in_bounds(nn, am, av[q]));
        } else {
            assert(in_bounds(nn, bm, bl[q - av.len()]));
        }
    }
    assert forall|q: int| 0 < q < rv.len() implies coords_adjacent(
        rv[q - 1],
        #[trigger] rv[q],
    ) by {
        if q < av.len() {
            assert(coords_adjacent(av[q - 1], av[q]));
            assert(in_bounds(nn, am, av[q - 1]));
            assert(in_bounds(nn, am, av[q]));
        } else if q == av.len() {
            assert(rv[q - 1] == (Coord {
                x: av[av.len() - 1].x,
                y: (av[av.len() - 1].y + bm) as usize,
            }));
            assert(rv[q] == bl.first());
        } else {
            assert(coords_adjacent(bl[q - av.len() - 1], bl[q - av.len()]));
        }
    }
    assert forall|p: int, q: int|
        0 <= p < q < rv.len() implies #[trigger] rv[p] != #[trigger] rv[q] by {
        if p < av.len() && q < av.len() {
            assert(av[p] != av[q]);
            assert(in_bounds(nn, am, av[p]));
            assert(in_bounds(nn, am, av[q]));
        } else if p < av.len() {
            assert(in_bounds(nn, bm, bl[q - av.len()]));
            assert(rv[p].y >= bm);
        } else {
            assert(bl[p - av.len()] != bl[q - av.len()]);
        }
    }
    assert(rv.first() == (Coord { x: av[0].x, y: (av[0].y + bm) as usize }));
    assert(rv.last() == bl.last());
}


/// The set of vertices of an `n` by `m` grid.
pub open spec fn grid_vertices(n: int, m: int) -> Set<Coord> {
    Set::new(|c: Coord| in_bounds(n, m, c))
}

/// One column of grid vertices holds `m` vertices.
proof fn lemma_grid_column_card(x: int, m: int)
    requires
        0 <= x <= usize::MAX,
        0 <= m <= usize::MAX,
    ensures
        Set::new(|c: Coord| c.x == x && c.y < m).finite(),
        Set::new(|c: Coord| c.x == x && c.y < m).len() == m,
    decreases m,
{
    broadcast use vstd::set::group_set_axioms;

    let col = Set::new(|c: Coord| c.x == x && c.y < m);
    if m == 0 {
        assert(col =~= Set::<Coord>::empty());
    } else {
        lemma_grid_column_card(x, m - 1);
        let smaller = Set::new(|c: Coord| c.x == x && c.y < m - 1);
        let top = Coord { x: x as usize, y: (m - 1) as usize };
        assert(col =~= smaller.insert(top));
        assert(!smaller.contains(top));
    }
}

/// An `n` by `m` grid holds exactly `n * m` vertices.
proof fn lemma_grid_vertices_card(n: int, m: int)
    requires
        0 <= n <= usize::MAX,
        0 <= m <= usize::MAX,
    ensures
        grid_vertices(n, m).finite(),
        grid_vertices(n, m).len() == n * m,
    decreases n,
{
    broadcast use vstd::set::group_set_axioms;

    if n == 0 {
        assert(grid_vertices(0, m) =~= Set::<Coord>::empty());
        assert(0 * m == 0) by (nonlinear_arith);
    } else {
        lemma_grid_vertices_card(n - 1, m);
        lemma_grid_column_card(n - 1, m);
        let col = Set::new(|c: Coord| c.x == n - 1 && c.y < m);
        assert(grid_vertices(n, m) =~= grid_vertices(n - 1, m) + col);
        assert(grid_vertices(n - 1, m).disjoint(col));
        vstd::set_lib::lemma_set_disjoint_lens(grid_vertices(n - 1, m), col);
        assert((n - 1) * m + m == n * m) by (nonlinear_arith);
    }
}

/// A sequence of pairwise-distinct in-range vertices whose length
/// equals the vertex count of the grid leaves no grid vertex out: such
/// a path really does visit every vertex exactly once.
pub proof fn lemma_full_path_covers_grid(n: int, m: int, s: Seq<Coord>)
    requires
        0 <= n <= usize::MAX,
        0 <= m <= usize::MAX,
        seq_in_bounds(n, m, s),
        seq_distinct(s),
        s.len() == n * m,
    ensures
        forall|c: Coord| in_bounds(n, m, c) ==> s.contains(c),
{
    broadcast use vstd::set::group_set_axioms;
    broadcast use vstd::seq_lib::seq_to_set_is_finite;

    assert(s.no_duplicates()) by {
        assert forall|i: int, j: int|
            0 <= i < s.len() && 0 <= j < s.len() && i != j implies s[i] != s[j] by {
            if i < j {
                assert(s[i] != s[j]);
            } else {
                assert(s[j] != s[i]);
            }
        }
    }
    s.unique_seq_to_set();
    lemma_grid_vertices_card(n, m);
    let g = grid_vertices(n, m);
    assert forall|c: Coord| in_bounds(n, m, c) implies s.contains(c) by {
        if !s.contains(c) {
            let shrunk = g.remove(c);
            assert forall|e: Coord| s.to_set().contains(e) implies shrunk.contains(e) by {
                assert(s.contains(e));
                let i = choose|i: int| 0 <= i < s.len() && s[i] == e;
                assert(in_bounds(n, m, s[i]));
            }
            assert(s.to_set().subset_of(shrunk));
            assert(g.contains(c));
            assert(shrunk.len() == g.len() - 1);
            vstd::set_lib::lemma_len_subset(s.to_set(), shrunk);
            assert(false);
        }
    }
}

impl GridPath {
    /// A path that is a full Hamiltonian solution visits every vertex
    /// of its grid.
    pub proof fn lemma_ham_covers_grid(&self, n: int, m: int, s: Coord, t: Coord)
        requires
            self.is_ham(n, m, s, t),
        ensures
            forall|c: Coord| in_bounds(n, m, c) ==> self.vertex_order@.contains(c),
    {
        lemma_full_path_covers_grid(n, m, self.vertex_order@);
    }
}

/// The grid dimensions for which prime solutions are tabulated.
pub open spec fn prime_dims(n: int, m: int) -> bool {
    ||| (n == 2 && m == 2)
    ||| (n == 2 && m == 3)
    ||| (n == 3 && m == 2)
    ||| (n == 3 && m == 3)
    ||| (n == 4 && m == 5)
    ||| (n == 5 && m == 4)
}

/// Shorthand used by the specification-level prime table below.
pub open spec fn cs(x: usize, y: usize) -> Coord {
    Coord { x, y }
}

/// The stored Hamiltonian paths of the 2 by 2 grid.
pub open spec fn prime_table_2_2() -> Seq<Seq<Coord>> {
    seq![
        seq![cs(0, 0), cs(1, 0), cs(1, 1), cs(0, 1)],
        seq![cs(0, 0), cs(0, 1), cs(1, 1), cs(1, 0)],
        seq![cs(0, 1), cs(1, 1), cs(1, 0), cs(0, 0)],
        seq![cs(1, 0), cs(1, 1), cs(0, 1), cs(0, 0)],
        seq![cs(1, 1), cs(0, 1), cs(0, 0), cs(1, 0)],
        seq![cs(1, 1), cs(1, 0), cs(0, 0), cs(0, 1)],
        seq![cs(1, 0), cs(0, 0), cs(0, 1), cs(1, 1)],
        seq![cs(0, 1), cs(0, 0), cs(1, 0), cs(1, 1)],
    ]
}

/// The stored Hamiltonian paths of the 2 by 3 grid.
pub open spec fn prime_table_2_3() -> Seq<Seq<Coord>> {
    seq![
        seq![cs(0, 0), cs(1, 0), cs(1, 1), cs(1, 2), cs(0, 2), cs(0, 1)],
        seq![cs(0, 0), cs(0, 1), cs(0, 2), cs(1, 2), cs(1, 1), cs(1, 0)],
        seq![cs(0, 0), cs(1, 0), cs(1, 1), cs(0, 1), cs(0, 2), cs(1, 2)],
        seq![cs(0, 1), cs(0, 2), cs(1, 2), cs(1, 1), cs(1, 0), cs(0, 0)],
        seq![cs(0, 1), cs(0, 0), cs(1, 0), cs(1, 1), cs(1, 2), cs(0, 2)],
        seq![cs(0, 2), cs(1, 2), cs(1, 1), cs(1, 0), cs(0, 0), cs(0, 1)],
        seq![cs(0, 2), cs(1, 2), cs(1, 1), cs(0, 1), cs(0, 0), cs(1, 0)],
        seq![cs(0, 2), cs(0, 1), cs(0, 0), cs(1, 0), cs(1, 1), cs(1, 2)],
        seq![cs(1, 0), cs(1, 1), cs(1, 2), cs(0, 2), cs(0, 1), cs(0, 0)],
        seq![cs(1, 0), cs(0, 0), cs(0, 1), cs(1, 1), cs(1, 2), cs(0, 2)],
        seq![cs(1, 0), cs(0, 0), cs(0, 1), cs(0, 2), cs(1, 2), cs(1, 1)],
        seq![cs(1, 1), cs(1, 2), cs(0, 2), cs(0, 1), cs(0, 0), cs(1, 0)],
        seq![cs(1, 1), cs(1, 0), cs(0, 0), cs(0, 1), cs(0, 2), cs(1, 2)],
        seq![cs(1, 2), cs(0, 2), cs(0, 1), cs(1, 1), cs(1, 0), cs(0, 0)],
        seq![cs(1, 2), cs(1, 1), cs(1, 0), cs(0, 0), cs(0, 1), cs(0, 2)],
        seq![cs(1, 2), cs(0, 2), cs(0, 1), cs(0, 0), cs(1, 0), cs(1, 1)],
    ]
}

/// The stored Hamiltonian paths of the 3 by 2 grid.
pub open spec fn prime_table_3_2() -> Seq<Seq<Coord>> {
    seq![
        seq![cs(0, 0), cs(0, 1), cs(1, 1), cs(2, 1), cs(2, 0), cs(1, 0)],
        seq![cs(0, 0), cs(1, 0), cs(2, 0), cs(2, 1), cs(1, 1), cs(0, 1)],
        seq![cs(0, 0), cs(0, 1), cs(1, 1), cs(1, 0), cs(2, 0), cs(2, 1)],
        seq![cs(1, 0), cs(2, 0), cs(2, 1), cs(1, 1), cs(0, 1), cs(0, 0)],
        seq![cs(1, 0), cs(0, 0), cs(0, 1), cs(1, 1), cs(2, 1), cs(2, 0)],
        seq![cs(2, 0), cs(2, 1), cs(1, 1), cs(0, 1), cs(0, 0), cs(1, 0)],
        seq![cs(2, 0), cs(2, 1), cs(1, 1), cs(1, 0), cs(0, 0), cs(0, 1)],
        seq![cs(2, 0), cs(1, 0), cs(0, 0), cs(0, 1), cs(1, 1), cs(2, 1)],
        seq![cs(0, 1), cs(1, 1), cs(2, 1), cs(2, 0), cs(1, 0), cs(0, 0)],
        seq![cs(0, 1), cs(0, 0), cs(1, 0), cs(1, 1), cs(2, 1), cs(2, 0)],
        seq![cs(0, 1), cs(0, 0), cs(1, 0), cs(2, 0), cs(2, 1), cs(1, 1)],
        seq![cs(1, 1), cs(2, 1), cs(2, 0), cs(1, 0), cs(0, 0), cs(0, 1)],
        seq![cs(1, 1), cs(0, 1), cs(0, 0), cs(1, 0), cs(2, 0), cs(2, 1)],
        seq![cs(2, 1), cs(2, 0), cs(1, 0), cs(1, 1), cs(0, 1), cs(0, 0)],
        seq![cs(2, 1), cs(1, 1), cs(0, 1), cs(0, 0), cs(1, 0), cs(2, 0)],
        seq![cs(2, 1), cs(2, 0), cs(1, 0), cs(0, 0), cs(0, 1), cs(1, 1)],
    ]
}

/// The stored Hamiltonian paths of the 3 by 3 grid.
pub open spec fn prime_table_3_3() -> Seq<Seq<Coord>> {
    seq![
        seq![cs(0, 0), cs(1, 0), cs(2, 0), cs(2, 1), cs(2, 2), cs(1, 2), cs(1, 1), cs(0, 1), cs(0, 2)],
        seq![cs(0, 0), cs(0, 1), cs(0, 2), cs(1, 2), cs(2, 2), cs(2, 1), cs(2, 0), cs(1, 0), cs(1, 1)],
        seq![cs(0, 0), cs(1, 0), cs(1, 1), cs(0, 1), cs(0, 2), cs(1, 2), cs(2, 2), cs(2, 1), cs(2, 0)],
        seq![cs(0, 0), cs(1, 0), cs(2, 0), cs(2, 1), cs(1, 1), cs(0, 1), cs(0, 2), cs(1, 2), cs(2, 2)],
        seq![cs(0, 2), cs(1, 2), cs(2, 2), cs(2, 1), cs(2, 0), cs(1, 0), cs(1, 1), cs(0, 1), cs(0, 0)],
        seq![cs(0, 2), cs(1, 2), cs(2, 2), cs(2, 1), cs(2, 0), cs(1, 0), cs(0, 0), cs(0, 1), cs(1, 1)],
        seq![cs(0, 2), cs(0, 1), cs(0, 0), cs(1, 0), cs(1, 1), cs(1, 2), cs(2, 2), cs(2, 1), cs(2, 0)],
        seq![cs(0, 2), cs(1, 2), cs(1, 1), cs(0, 1), cs(0, 0), cs(1, 0), cs(2, 0), cs(2, 1), cs(2, 2)],
        seq![cs(1, 1), cs(0, 1), cs(0, 2), cs(1, 2), cs(2, 2), cs(2, 1), cs(2, 0), cs(1, 0), cs(0, 0)],
        seq![cs(1, 1), cs(1, 2), cs(2, 2), cs(2, 1), cs(2, 0), cs(1, 0), cs(0, 0), cs(0, 1), cs(0, 2)],
        seq![cs(1, 1), cs(2, 1), cs(2, 2), cs(1, 2), cs(0, 2), cs(0, 1), cs(0, 0), cs(1, 0), cs(2, 0)],
        seq![cs(1, 1), cs(2, 1), cs(2, 0), cs(1, 0), cs(0, 0), cs(0, 1), cs(0, 2), cs(1, 2), cs(2, 2)],
        seq![cs(2, 0), cs(2, 1), cs(2, 2), cs(1, 2), cs(0, 2), cs(0, 1), cs(1, 1), cs(1, 0), cs(0, 0)],
        seq![cs(2, 0), cs(2, 1), cs(2, 2), cs(1, 2), cs(0, 2), cs(0, 1), cs(0, 0), cs(1, 0), cs(1, 1)],
        seq![cs(2, 0), cs(1, 0), cs(0, 0), cs(0, 1), cs(1, 1), cs(2, 1), cs(2, 2), cs(1, 2), cs(0, 2)],
        seq![cs(2, 0), cs(1, 0), cs(0, 0), cs(0, 1), cs(0, 2), cs(1, 2), cs(1, 1), cs(2, 1), cs(2, 2)],
        seq![cs(2, 2), cs(2, 1), cs(2, 0), cs(1, 0), cs(1, 1), cs(1, 2), cs(0, 2), cs(0, 1), cs(0, 0)],
        seq![cs(2, 2), cs(2, 1), cs(2, 0), cs(1, 0), cs(0, 0), cs(0, 1), cs(1, 1), cs(1, 2), cs(0, 2)],
        seq![cs(2, 2), cs(2, 1), cs(2, 0), cs(1, 0), cs(0, 0), cs(0, 1), cs(0, 2), cs(1, 2), cs(1, 1)],
        seq![cs(2, 2), cs(1, 2), cs(0, 2), cs(0, 1), cs(0, 0), cs(1, 0), cs(1, 1), cs(2, 1), cs(2, 0)],
    ]
}

/// The stored Hamiltonian paths of the 4 by 5 grid.
pub open spec fn prime_table_4_5() -> Seq<Seq<Coord>> {
    seq![
        seq![cs(0, 1), cs(0, 0), cs(1, 0), cs(2, 0), cs(3, 0), cs(3, 1), cs(2, 1), cs(2, 2), cs(3, 2), cs(3, 3), cs(3, 4), cs(2, 4), cs(2, 3), cs(1, 3), cs(1, 4), cs(0, 4), cs(0, 3), cs(0, 2), cs(1, 2), cs(1, 1)],
        seq![cs(0, 3), cs(0, 4), cs(1, 4), cs(2, 4), cs(3, 4), cs(3, 3), cs(2, 3), cs(2, 2), cs(3, 2), cs(3, 1), cs(3, 0), cs(2, 0), cs(2, 1), cs(1, 1), cs(1, 0), cs(0, 0), cs(0, 1), cs(0, 2), cs(1, 2), cs(1, 3)],
        seq![cs(1, 1), cs(1, 2), cs(0, 2), cs(0, 3), cs(0, 4), cs(1, 4), cs(1, 3), cs(2, 3), cs(2, 4), cs(3, 4), cs(3, 3), cs(3, 2), cs(2, 2), cs(2, 1), cs(3, 1), cs(3, 0), cs(2, 0), cs(1, 0), cs(0, 0), cs(0, 1)],
        seq![cs(1, 3), cs(1, 2), cs(0, 2), cs(0, 1), cs(0, 0), cs(1, 0), cs(1, 1), cs(2, 1), cs(2, 0), cs(3, 0), cs(3, 1), cs(3, 2), cs(2, 2), cs(2, 3), cs(3, 3), cs(3, 4), cs(2, 4), cs(1, 4), cs(0, 4), cs(0, 3)],
        seq![cs(2, 1), cs(2, 2), cs(3, 2), cs(3, 3), cs(3, 4), cs(2, 4), cs(2, 3), cs(1, 3), cs(1, 4), cs(0, 4), cs(0, 3), cs(0, 2), cs(1, 2), cs(1, 1), cs(0, 1), cs(0, 0), cs(1, 0), cs(2, 0), cs(3, 0), cs(3, 1)],
        seq![cs(2, 3), cs(2, 2), cs(3, 2), cs(3, 1), cs(3, 0), cs(2, 0), cs(2, 1), cs(1, 1), cs(1, 0), cs(0, 0), cs(0, 1), cs(0, 2), cs(1, 2), cs(1, 3), cs(0, 3), cs(0, 4), cs(1, 4), cs(2, 4), cs(3, 4), cs(3, 3)],
        seq![cs(3, 1), cs(3, 0), cs(2, 0), cs(1, 0), cs(0, 0), cs(0, 1), cs(1, 1), cs(1, 2), cs(0, 2), cs(0, 3), cs(0, 4), cs(1, 4), cs(1, 3), cs(2, 3), cs(2, 4), cs(3, 4), cs(3, 3), cs(3, 2), cs(2, 2), cs(2, 1)],
        seq![cs(3, 3), cs(3, 4), cs(2, 4), cs(1, 4), cs(0, 4), cs(0, 3), cs(1, 3), cs(1, 2), cs(0, 2), cs(0, 1), cs(0, 0), cs(1, 0), cs(1, 1), cs(2, 1), cs(2, 0), cs(3, 0), cs(3, 1), cs(3, 2), cs(2, 2), cs(2, 3)],
    ]
}

/// The stored Hamiltonian paths of the 5 by 4 grid.
pub open spec fn prime_table_5_4() -> Seq<Seq<Coord>> {
    seq![
        seq![cs(1, 0), cs(0, 0), cs(0, 1), cs(0, 2), cs(0, 3), cs(1, 3), cs(1, 2), cs(2, 2), cs(2, 3), cs(3, 3), cs(4, 3), cs(4, 2), cs(3, 2), cs(3, 1), cs(4, 1), cs(4, 0), cs(3, 0), cs(2, 0), cs(2, 1), cs(1, 1)],
        seq![cs(1, 1), cs(2, 1), cs(2, 0), cs(3, 0), cs(4, 0), cs(4, 1), cs(3, 1), cs(3, 2), cs(4, 2), cs(4, 3), cs(3, 3), cs(2, 3), cs(2, 2), cs(1, 2), cs(1, 3), cs(0, 3), cs(0, 2), cs(0, 1), cs(0, 0), cs(1, 0)],
        seq![cs(1, 2), cs(2, 2), cs(2, 3), cs(3, 3), cs(4, 3), cs(4, 2), cs(3, 2), cs(3, 1), cs(4, 1), cs(4, 0), cs(3, 0), cs(2, 0), cs(2, 1), cs(1, 1), cs(1, 0), cs(0, 0), cs(0, 1), cs(0, 2), cs(0, 3), cs(1, 3)],
        seq![cs(1, 3), cs(0, 3), cs(0, 2), cs(0, 1), cs(0, 0), cs(1, 0), cs(1, 1), cs(2, 1), cs(2, 0), cs(3, 0), cs(4, 0), cs(4, 1), cs(3, 1), cs(3, 2), cs(4, 2), cs(4, 3), cs(3, 3), cs(2, 3), cs(2, 2), cs(1, 2)],
        seq![cs(3, 0), cs(4, 0), cs(4, 1), cs(4, 2), cs(4, 3), cs(3, 3), cs(3, 2), cs(2, 2), cs(2, 3), cs(1, 3), cs(0, 3), cs(0, 2), cs(1, 2), cs(1, 1), cs(0, 1), cs(0, 0), cs(1, 0), cs(2, 0), cs(2, 1), cs(3, 1)],
        seq![cs(3, 1), cs(2, 1), cs(2, 0), cs(1, 0), cs(0, 0), cs(0, 1), cs(1, 1), cs(1, 2), cs(0, 2), cs(0, 3), cs(1, 3), cs(2, 3), cs(2, 2), cs(3, 2), cs(3, 3), cs(4, 3), cs(4, 2), cs(4, 1), cs(4, 0), cs(3, 0)],
        seq![cs(3, 2), cs(2, 2), cs(2, 3), cs(1, 3), cs(0, 3), cs(0, 2), cs(1, 2), cs(1, 1), cs(0, 1), cs(0, 0), cs(1, 0), cs(2, 0), cs(2, 1), cs(3, 1), cs(3, 0), cs(4, 0), cs(4, 1), cs(4, 2), cs(4, 3), cs(3, 3)],
        seq![cs(3, 3), cs(4, 3), cs(4, 2), cs(4, 1), cs(4, 0), cs(3, 0), cs(3, 1), cs(2, 1), cs(2, 0), cs(1, 0), cs(0, 0), cs(0, 1), cs(1, 1), cs(1, 2), cs(0, 2), cs(0, 3), cs(1, 3), cs(2, 3), cs(2, 2), cs(3, 2)],
    ]
}

/// The table of stored prime solutions: for each tabulated pair of
/// dimensions, the sequence of stored full paths; empty for any other
/// dimensions. This is the authoritative content of the prime table,
/// which the executable rows below are proved to reproduce.
pub open spec fn prime_table(n: int, m: int) -> Seq<Seq<Coord>> {
    if n == 2 && m == 2 {
        prime_table_2_2()
    } else if n == 2 && m == 3 {
        prime_table_2_3()
    } else if n == 3 && m == 2 {
        prime_table_3_2()
    } else if n == 3 && m == 3 {
        prime_table_3_3()
    } else if n == 4 && m == 5 {
        prime_table_4_5()
    } else if n == 5 && m == 4 {
        prime_table_5_4()
    } else {
        Seq::empty()
    }
}

/// Every stored row of the 2 by 2 table is a valid path.
#[verifier::rlimit(100)]
#[verifier::spinoff_prover]
proof fn lemma_prime_table_2_2_valid()
    ensures
        forall|i: int|
            0 <= i < prime_table_2_2().len() ==> valid_path(
                2,
                2,
                #[trigger] prime_table_2_2()[i],
            ),
{
    assert(valid_path(2, 2, prime_table_2_2()[0]));
    assert(valid_path(2, 2, prime_table_2_2()[1]));
    assert(valid_path(2, 2, prime_table_2_2()[2]));
    assert(valid_path(2, 2, prime_table_2_2()[3]));
    assert(valid_path(2, 2, prime_table_2_2()[4]));
    assert(valid_path(2, 2, prime_table_2_2()[5]));
    assert(valid_path(2, 2, prime_table_2_2()[6]));
    assert(valid_path(2, 2, prime_table_2_2()[7]));
    assert forall|i: int|
        0 <= i < prime_table_2_2().len() implies valid_path(
        2,
        2,
        #[trigger] prime_table_2_2()[i],
    ) by {}
}

/// Every stored row of the 2 by 3 table is a valid path.
#[verifier::rlimit(100)]
#[verifier::spinoff_prover]
proof fn lemma_prime_table_2_3_valid()
    ensures
        forall|i: int|
            0 <= i < prime_table_2_3().len() ==> valid_path(
                2,
                3,
                #[trigger] prime_table_2_3()[i],
            ),
{
    assert(valid_path(2, 3, prime_table_2_3()[0]));
    assert(valid_path(2, 3, prime_table_2_3()[1]));
    assert(valid_path(2, 3, prime_table_2_3()[2]));
    assert(valid_path(2, 3, prime_table_2_3()[3]));
    assert(valid_path(2, 3, prime_table_2_3()[4]));
    assert(valid_path(2, 3, prime_table_2_3()[5]));
    assert(valid_path(2, 3, prime_table_2_3()[6]));
    assert(valid_path(2, 3, prime_table_2_3()[7]));
    assert(valid_path(2, 3, prime_table_2_3()[8]));
    assert(valid_path(2, 3, prime_table_2_3()[9]));
    assert(valid_path(2, 3, prime_table_2_3()[10]));
    assert(valid_path(2, 3, prime_table_2_3()[11]));
    assert(valid_path(2, 3, prime_table_2_3()[12]));
    assert(valid_path(2, 3, prime_table_2_3()[13]));
    assert(valid_path(2, 3, prime_table_2_3()[14]));
    assert(valid_path(2, 3, prime_table_2_3()[15]));
    assert forall|i: int|
        0 <= i < prime_table_2_3().len() implies valid_path(
        2,
        3,
        #[trigger] prime_table_2_3()[i],
    ) by {}
}

/// Every stored row of the 3 by 2 table is a valid path.
#[verifier::rlimit(100)]
#[verifier::spinoff_prover]
proof fn lemma_prime_table_3_2_valid()
    ensures
        forall|i: int|
            0 <= i < prime_table_3_2().len() ==> valid_path(
                3,
                2,
                #[trigger] prime_table_3_2()[i],
            ),
{
    assert(valid_path(3, 2, prime_table_3_2()[0]));
    assert(valid_path(3, 2, prime_table_3_2()[1]));
    assert(valid_path(3, 2, prime_table_3_2()[2]));
    assert(valid_path(3, 2, prime_table_3_2()[3]));
    assert(valid_path(3, 2, prime_table_3_2()[4]));
    assert(valid_path(3, 2, prime_table_3_2()[5]));
    assert(valid_path(3, 2, prime_table_3_2()[6]));
    assert(valid_path(3, 2, prime_table_3_2()[7]));
    assert(valid_path(3, 2, prime_table_3_2()[8]));
    assert(valid_path(3, 2, prime_table_3_2()[9]));
    assert(valid_path(3, 2, prime_table_3_2()[10]));
    assert(valid_path(3, 2, prime_table_3_2()[11]));
    assert(valid_path(3, 2, prime_table_3_2()[12]));
    assert(valid_path(3, 2, prime_table_3_2()[13]));
    assert(valid_path(3, 2, prime_table_3_2()[14]));
    assert(valid_path(3, 2, prime_table_3_2()[15]));
    assert forall|i: int|
        0 <= i < prime_table_3_2().len() implies valid_path(
        3,
        2,
        #[trigger] prime_table_3_2()[i],
    ) by {}
}

/// Every stored row of the 3 by 3 table is a valid path.
#[verifier::rlimit(100)]
#[verifier::spinoff_prover]
proof fn lemma_prime_table_3_3_valid()
    ensures
        forall|i: int|
            0 <= i < prime_table_3_3().len() ==> valid_path(
                3,
                3,
                #[trigger] prime_table_3_3()[i],
            ),
{
    assert(valid_path(3, 3, prime_table_3_3()[0]));
    assert(valid_path(3, 3, prime_table_3_3()[1]));
    assert(valid_path(3, 3, prime_table_3_3()[2]));
    assert(valid_path(3, 3, prime_table_3_3()[3]));
    assert(valid_path(3, 3, prime_table_3_3()[4]));
    assert(valid_path(3, 3, prime_table_3_3()[5]));
    assert(valid_path(3, 3, prime_table_3_3()[6]));
    assert(valid_path(3, 3, prime_table_3_3()[7]));
    assert(valid_path(3, 3, prime_table_3_3()[8]));
    assert(valid_path(3, 3, prime_table_3_3()[9]));
    assert(valid_path(3, 3, prime_table_3_3()[10]));
    assert(valid_path(3, 3, prime_table_3_3()[11]));
    assert(valid_path(3, 3, prime_table_3_3()[12]));
    assert(valid_path(3, 3, prime_table_3_3()[13]));
    assert(valid_path(3, 3, prime_table_3_3()[14]));
    assert(valid_path(3, 3, prime_table_3_3()[15]));
    assert(valid_path(3, 3, prime_table_3_3()[16]));
    assert(valid_path(3, 3, prime_table_3_3()[17]));
    assert(valid_path(3, 3, prime_table_3_3()[18]));
    assert(valid_path(3, 3, prime_table_3_3()[19]));
    assert forall|i: int|
        0 <= i < prime_table_3_3().len() implies valid_path(
        3,
        3,
        #[trigger] prime_table_3_3()[i],
    ) by {}
}

/// Every stored row of the 4 by 5 table is a valid path.
#[verifier::rlimit(100)]
#[verifier::spinoff_prover]
proof fn lemma_prime_table_4_5_valid()
    ensures
        forall|i: int|
            0 <= i < prime_table_4_5().len() ==> valid_path(
                4,
                5,
                #[trigger] prime_table_4_5()[i],
            ),
{
    assert(valid_path(4, 5, prime_table_4_5()[0]));
    assert(valid_path(4, 5, prime_table_4_5()[1]));
    assert(valid_path(4, 5, prime_table_4_5()[2]));
    assert(valid_path(4, 5, prime_table_4_5()[3]));
    assert(valid_path(4, 5, prime_table_4_5()[4]));
    assert(valid_path(4, 5, prime_table_4_5()[5]));
    assert(valid_path(4, 5, prime_table_4_5()[6]));
    assert(valid_path(4, 5, prime_table_4_5()[7]));
    assert forall|i: int|
        0 <= i < prime_table_4_5().len() implies valid_path(
        4,
        5,
        #[trigger] prime_table_4_5()[i],
    ) by {}
}

/// Every stored row of the 5 by 4 table is a valid path.
#[verifier::rlimit(100)]
#[verifier::spinoff_prover]
proof fn lemma_prime_table_5_4_valid()
    ensures
        forall|i: int|
            0 <= i < prime_table_5_4().len() ==> valid_path(
                5,
                4,
                #[trigger] prime_table_5_4()[i],
            ),
{
    assert(valid_path(5, 4, prime_table_5_4()[0]));
    assert(valid_path(5, 4, prime_table_5_4()[1]));
    assert(valid_path(5, 4, prime_table_5_4()[2]));
    assert(valid_path(5, 4, prime_table_5_4()[3]));
    assert(valid_path(5, 4, prime_table_5_4()[4]));
    assert(valid_path(5, 4, prime_table_5_4()[5]));
    assert(valid_path(5, 4, prime_table_5_4()[6]));
    assert(valid_path(5, 4, prime_table_5_4()[7]));
    assert forall|i: int|
        0 <= i < prime_table_5_4().len() implies valid_path(
        5,
        4,
        #[trigger] prime_table_5_4()[i],
    ) by {}
}

/// Every stored row of the prime table is a valid path of its grid.
proof fn lemma_prime_table_valid(n: int, m: int)
    ensures
        forall|i: int|
            0 <= i < prime_table(n, m).len() ==> valid_path(n, m, #[trigger] prime_table(n, m)[i]),
{
    if n == 2 && m == 2 {
        lemma_prime_table_2_2_valid();
    } else if n == 2 && m == 3 {
        lemma_prime_table_2_3_valid();
    } else if n == 3 && m == 2 {
        lemma_prime_table_3_2_valid();
    } else if n == 3 && m == 3 {
        lemma_prime_table_3_3_valid();
    } else if n == 4 && m == 5 {
        lemma_prime_table_4_5_valid();
    } else if n == 5 && m == 4 {
        lemma_prime_table_5_4_valid();
    }
}
/// Whether a stored row answers a lookup for the `n` by `m` grid from
/// `s` to `t`: it has the full vertex count and runs from `s` to `t`.
pub open spec fn prime_row_matches(row: Seq<Coord>, n: int, m: int, s: Coord, t: Coord) -> bool {
    &&& row.len() == n * m
    &&& row.len() >= 1
    &&& row.first() == s
    &&& row.last() == t
}

/// Shorthand used by the executable prime table below.
fn cv(x: usize, y: usize) -> (r: Coord)
    ensures
        r == (Coord { x, y }),
{
    Coord { x, y }
}

/// The executable rows of the 2 by 2 table.
#[verifier::loop_isolation(false)]
fn prime_rows_2_2() -> (rows: Vec<Vec<Coord>>)
    ensures
        rows@.len() == prime_table_2_2().len(),
        forall|i: int|
            0 <= i < rows@.len() ==> rows@[i]@ == #[trigger] prime_table_2_2()[i],
{
    let mut rows: Vec<Vec<Coord>> = Vec::new();
    rows.push(vec![cv(0, 0), cv(1, 0), cv(1, 1), cv(0, 1)]);
    rows.push(vec![cv(0, 0), cv(0, 1), cv(1, 1), cv(1, 0)]);
    rows.push(vec![cv(0, 1), cv(1, 1), cv(1, 0), cv(0, 0)]);
    rows.push(vec![cv(1, 0), cv(1, 1), cv(0, 1), cv(0, 0)]);
    rows.push(vec![cv(1, 1), cv(0, 1), cv(0, 0), cv(1, 0)]);
    rows.push(vec![cv(1, 1), cv(1, 0), cv(0, 0), cv(0, 1)]);
    rows.push(vec![cv(1, 0), cv(0, 0), cv(0, 1), cv(1, 1)]);
    rows.push(vec![cv(0, 1), cv(0, 0), cv(1, 0), cv(1, 1)]);
    proof {
        assert(rows@[0]@ =~= prime_table_2_2()[0]);
        assert(rows@[1]@ =~= prime_table_2_2()[1]);
        assert(rows@[2]@ =~= prime_table_2_2()[2]);
        assert(rows@[3]@ =~= prime_table_2_2()[3]);
        assert(rows@[4]@ =~= prime_table_2_2()[4]);
        assert(rows@[5]@ =~= prime_table_2_2()[5]);
        assert(rows@[6]@ =~= prime_table_2_2()[6]);
        assert(rows@[7]@ =~= prime_table_2_2()[7]);
    }
    rows
}

/// The executable rows of the 2 by 3 table.
#[verifier::loop_isolation(false)]
fn prime_rows_2_3() -> (rows: Vec<Vec<Coord>>)
    ensures
        rows@.len() == prime_table_2_3().len(),
        forall|i: int|
            0 <= i < rows@.len() ==> rows@[i]@ == #[trigger] prime_table_2_3()[i],
{
    let mut rows: Vec<Vec<Coord>> = Vec::new();
    rows.push(vec![cv(0, 0), cv(1, 0), cv(1, 1), cv(1, 2), cv(0, 2), cv(0, 1)]);
    rows.push(vec![cv(0, 0), cv(0, 1), cv(0, 2), cv(1, 2), cv(1, 1), cv(1, 0)]);
    rows.push(vec![cv(0, 0), cv(1, 0), cv(1, 1), cv(0, 1), cv(0, 2), cv(1, 2)]);
    rows.push(vec![cv(0, 1), cv(0, 2), cv(1, 2), cv(1, 1), cv(1, 0), cv(0, 0)]);
    rows.push(vec![cv(0, 1), cv(0, 0), cv(1, 0), cv(1, 1), cv(1, 2), cv(0, 2)]);
    rows.push(vec![cv(0, 2), cv(1, 2), cv(1, 1), cv(1, 0), cv(0, 0), cv(0, 1)]);
    rows.push(vec![cv(0, 2), cv(1, 2), cv(1, 1), cv(0, 1), cv(0, 0), cv(1, 0)]);
    rows.push(vec![cv(0, 2), cv(0, 1), cv(0, 0), cv(1, 0), cv(1, 1), cv(1, 2)]);
    rows.push(vec![cv(1, 0), cv(1, 1), cv(1, 2), cv(0, 2), cv(0, 1), cv(0, 0)]);
    rows.push(vec![cv(1, 0), cv(0, 0), cv(0, 1), cv(1, 1), cv(1, 2), cv(0, 2)]);
    rows.push(vec![cv(1, 0), cv(0, 0), cv(0, 1), cv(0, 2), cv(1, 2), cv(1, 1)]);
    rows.push(vec![cv(1, 1), cv(1, 2), cv(0, 2), cv(0, 1), cv(0, 0), cv(1, 0)]);
    rows.push(vec![cv(1, 1), cv(1, 0), cv(0, 0), cv(0, 1), cv(0, 2), cv(1, 2)]);
    rows.push(vec![cv(1, 2), cv(0, 2), cv(0, 1), cv(1, 1), cv(1, 0), cv(0, 0)]);
    rows.push(vec![cv(1, 2), cv(1, 1), cv(1, 0), cv(0, 0), cv(0, 1), cv(0, 2)]);
    rows.push(vec![cv(1, 2), cv(0, 2), cv(0, 1), cv(0, 0), cv(1, 0), cv(1, 1)]);
    proof {
        assert(rows@[0]@ =~= prime_table_2_3()[0]);
        assert(rows@[1]@ =~= prime_table_2_3()[1]);
        assert(rows@[2]@ =~= prime_table_2_3()[2]);
        assert(rows@[3]@ =~= prime_table_2_3()[3]);
        assert(rows@[4]@ =~= prime_table_2_3()[4]);
        assert(rows@[5]@ =~= prime_table_2_3()[5]);
        assert(rows@[6]@ =~= prime_table_2_3()[6]);
        assert(rows@[7]@ =~= prime_table_2_3()[7]);
        assert(rows@[8]@ =~= prime_table_2_3()[8]);
        assert(rows@[9]@ =~= prime_table_2_3()[9]);
        assert(rows@[10]@ =~= prime_table_2_3()[10]);
        assert(rows@[11]@ =~= prime_table_2_3()[11]);
        assert(rows@[12]@ =~= prime_table_2_3()[12]);
        assert(rows@[13]@ =~= prime_table_2_3()[13]);
        assert(rows@[14]@ =~= prime_table_2_3()[14]);
        assert(rows@[15]@ =~= prime_table_2_3()[15]);
    }
    rows
}

/// The executable rows of the 3 by 2 table.
#[verifier::loop_isolation(false)]
fn prime_rows_3_2() -> (rows: Vec<Vec<Coord>>)
    ensures
        rows@.len() == prime_table_3_2().len(),
        forall|i: int|
            0 <= i < rows@.len() ==> rows@[i]@ == #[trigger] prime_table_3_2()[i],
{
    let mut rows: Vec<Vec<Coord>> = Vec::new();
    rows.push(vec![cv(0, 0), cv(0, 1), cv(1, 1), cv(2, 1), cv(2, 0), cv(1, 0)]);
    rows.push(vec![cv(0, 0), cv(1, 0), cv(2, 0), cv(2, 1), cv(1, 1), cv(0, 1)]);
    rows.push(vec![cv(0, 0), cv(0, 1), cv(1, 1), cv(1, 0), cv(2, 0), cv(2, 1)]);
    rows.push(vec![cv(1, 0), cv(2, 0), cv(2, 1), cv(1, 1), cv(0, 1), cv(0, 0)]);
    rows.push(vec![cv(1, 0), cv(0, 0), cv(0, 1), cv(1, 1), cv(2, 1), cv(2, 0)]);
    rows.push(vec![cv(2, 0), cv(2, 1), cv(1, 1), cv(0, 1), cv(0, 0), cv(1, 0)]);
    rows.push(vec![cv(2, 0), cv(2, 1), cv(1, 1), cv(1, 0), cv(0, 0), cv(0, 1)]);
    rows.push(vec![cv(2, 0), cv(1, 0), cv(0, 0), cv(0, 1), cv(1, 1), cv(2, 1)]);
    rows.push(vec![cv(0, 1), cv(1, 1), cv(2, 1), cv(2, 0), cv(1, 0), cv(0, 0)]);
    rows.push(vec![cv(0, 1), cv(0, 0), cv(1, 0), cv(1, 1), cv(2, 1), cv(2, 0)]);
    rows.push(vec![cv(0, 1), cv(0, 0), cv(1, 0), cv(2, 0), cv(2, 1), cv(1, 1)]);
    rows.push(vec![cv(1, 1), cv(2, 1), cv(2, 0), cv(1, 0), cv(0, 0), cv(0, 1)]);
    rows.push(vec![cv(1, 1), cv(0, 1), cv(0, 0), cv(1, 0), cv(2, 0), cv(2, 1)]);
    rows.push(vec![cv(2, 1), cv(2, 0), cv(1, 0), cv(1, 1), cv(0, 1), cv(0, 0)]);
    rows.push(vec![cv(2, 1), cv(1, 1), cv(0, 1), cv(0, 0), cv(1, 0), cv(2, 0)]);
    rows.push(vec![cv(2, 1), cv(2, 0), cv(1, 0), cv(0, 0), cv(0, 1), cv(1, 1)]);
    proof {
        assert(rows@[0]@ =~= prime_table_3_2()[0]);
        assert(rows@[1]@ =~= prime_table_3_2()[1]);
        assert(rows@[2]@ =~= prime_table_3_2()[2]);
        assert(rows@[3]@ =~= prime_table_3_2()[3]);
        assert(rows@[4]@ =~= prime_table_3_2()[4]);
        assert(rows@[5]@ =~= prime_table_3_2()[5]);
        assert(rows@[6]@ =~= prime_table_3_2()[6]);
        assert(rows@[7]@ =~= prime_table_3_2()[7]);
        assert(rows@[8]@ =~= prime_table_3_2()[8]);
        assert(rows@[9]@ =~= prime_table_3_2()[9]);
        assert(rows@[10]@ =~= prime_table_3_2()[10]);
        assert(rows@[11]@ =~= prime_table_3_2()[11]);
        assert(rows@[12]@ =~= prime_table_3_2()[12]);
        assert(rows@[13]@ =~= prime_table_3_2()[13]);
        assert(rows@[14]@ =~= prime_table_3_2()[14]);
        assert(rows@[15]@ =~= prime_table_3_2()[15]);
    }
    rows
}

/// The executable rows of the 3 by 3 table.
#[verifier::loop_isolation(false)]
fn prime_rows_3_3() -> (rows: Vec<Vec<Coord>>)
    ensures
        rows@.len() == prime_table_3_3().len(),
        forall|i: int|
            0 <= i < rows@.len() ==> rows@[i]@ == #[trigger] prime_table_3_3()[i],
{
    let mut rows: Vec<Vec<Coord>> = Vec::new();
    rows.push(vec![cv(0, 0), cv(1, 0), cv(2, 0), cv(2, 1), cv(2, 2), cv(1, 2), cv(1, 1), cv(0, 1), cv(0, 2)]);
    rows.push(vec![cv(0, 0), cv(0, 1), cv(0, 2), cv(1, 2), cv(2, 2), cv(2, 1), cv(2, 0), cv(1, 0), cv(1, 1)]);
    rows.push(vec![cv(0, 0), cv(1, 0), cv(1, 1), cv(0, 1), cv(0, 2), cv(1, 2), cv(2, 2), cv(2, 1), cv(2, 0)]);
    rows.push(vec![cv(0, 0), cv(1, 0), cv(2, 0), cv(2, 1), cv(1, 1), cv(0, 1), cv(0, 2), cv(1, 2), cv(2, 2)]);
    rows.push(vec![cv(0, 2), cv(1, 2), cv(2, 2), cv(2, 1), cv(2, 0), cv(1, 0), cv(1, 1), cv(0, 1), cv(0, 0)]);
    rows.push(vec![cv(0, 2), cv(1, 2), cv(2, 2), cv(2, 1), cv(2, 0), cv(1, 0), cv(0, 0), cv(0, 1), cv(1, 1)]);
    rows.push(vec![cv(0, 2), cv(0, 1), cv(0, 0), cv(1, 0), cv(1, 1), cv(1, 2), cv(2, 2), cv(2, 1), cv(2, 0)]);
    rows.push(vec![cv(0, 2), cv(1, 2), cv(1, 1), cv(0, 1), cv(0, 0), cv(1, 0), cv(2, 0), cv(2, 1), cv(2, 2)]);
    rows.push(vec![cv(1, 1), cv(0, 1), cv(0, 2), cv(1, 2), cv(2, 2), cv(2, 1), cv(2, 0), cv(1, 0), cv(0, 0)]);
    rows.push(vec![cv(1, 1), cv(1, 2), cv(2, 2), cv(2, 1), cv(2, 0), cv(1, 0), cv(0, 0), cv(0, 1), cv(0, 2)]);
    rows.push(vec![cv(1, 1), cv(2, 1), cv(2, 2), cv(1, 2), cv(0, 2), cv(0, 1), cv(0, 0), cv(1, 0), cv(2, 0)]);
    rows.push(vec![cv(1, 1), cv(2, 1), cv(2, 0), cv(1, 0), cv(0, 0), cv(0, 1), cv(0, 2), cv(1, 2), cv(2, 2)]);
    rows.push(vec![cv(2, 0), cv(2, 1), cv(2, 2), cv(1, 2), cv(0, 2), cv(0, 1), cv(1, 1), cv(1, 0), cv(0, 0)]);
    rows.push(vec![cv(2, 0), cv(2, 1), cv(2, 2), cv(1, 2), cv(0, 2), cv(0, 1), cv(0, 0), cv(1, 0), cv(1, 1)]);
    rows.push(vec![cv(2, 0), cv(1, 0), cv(0, 0), cv(0, 1), cv(1, 1), cv(2, 1), cv(2, 2), cv(1, 2), cv(0, 2)]);
    rows.push(vec![cv(2, 0), cv(1, 0), cv(0, 0), cv(0, 1), cv(0, 2), cv(1, 2), cv(1, 1), cv(2, 1), cv(2, 2)]);
    rows.push(vec![cv(2, 2), cv(2, 1), cv(2, 0), cv(1, 0), cv(1, 1), cv(1, 2), cv(0, 2), cv(0, 1), cv(0, 0)]);
    rows.push(vec![cv(2, 2), cv(2, 1), cv(2, 0), cv(1, 0), cv(0, 0), cv(0, 1), cv(1, 1), cv(1, 2), cv(0, 2)]);
    rows.push(vec![cv(2, 2), cv(2, 1), cv(2, 0), cv(1, 0), cv(0, 0), cv(0, 1), cv(0, 2), cv(1, 2), cv(1, 1)]);
    rows.push(vec![cv(2, 2), cv(1, 2), cv(0, 2), cv(0, 1), cv(0, 0), cv(1, 0), cv(1, 1), cv(2, 1), cv(2, 0)]);
    proof {
        assert(rows@[0]@ =~= prime_table_3_3()[0]);
        assert(rows@[1]@ =~= prime_table_3_3()[1]);
        assert(rows@[2]@ =~= prime_table_3_3()[2]);
        assert(rows@[3]@ =~= prime_table_3_3()[3]);
        assert(rows@[4]@ =~= prime_table_3_3()[4]);
        assert(rows@[5]@ =~= prime_table_3_3()[5]);
        assert(rows@[6]@ =~= prime_table_3_3()[6]);
        assert(rows@[7]@ =~= prime_table_3_3()[7]);
        assert(rows@[8]@ =~= prime_table_3_3()[8]);
        assert(rows@[9]@ =~= prime_table_3_3()[9]);
        assert(rows@[10]@ =~= prime_table_3_3()[10]);
        assert(rows@[11]@ =~= prime_table_3_3()[11]);
        assert(rows@[12]@ =~= prime_table_3_3()[12]);
        assert(rows@[13]@ =~= prime_table_3_3()[13]);
        assert(rows@[14]@ =~= prime_table_3_3()[14]);
        assert(rows@[15]@ =~= prime_table_3_3()[15]);
        assert(rows@[16]@ =~= prime_table_3_3()[16]);
        assert(rows@[17]@ =~= prime_table_3_3()[17]);
        assert(rows@[18]@ =~= prime_table_3_3()[18]);
        assert(rows@[19]@ =~= prime_table_3_3()[19]);
    }
    rows
}

/// The executable rows of the 4 by 5 table.
#[verifier::loop_isolation(false)]
fn prime_rows_4_5() -> (rows: Vec<Vec<Coord>>)
    ensures
        rows@.len() == prime_table_4_5().len(),
        forall|i: int|
            0 <= i < rows@.len() ==> rows@[i]@ == #[trigger] prime_table_4_5()[i],
{
    let mut rows: Vec<Vec<Coord>> = Vec::new();
    rows.push(vec![cv(0, 1), cv(0, 0), cv(1, 0), cv(2, 0), cv(3, 0), cv(3, 1), cv(2, 1), cv(2, 2), cv(3, 2), cv(3, 3), cv(3, 4), cv(2, 4), cv(2, 3), cv(1, 3), cv(1, 4), cv(0, 4), cv(0, 3), cv(0, 2), cv(1, 2), cv(1, 1)]);
    rows.push(vec![cv(0, 3), cv(0, 4), cv(1, 4), cv(2, 4), cv(3, 4), cv(3, 3), cv(2, 3), cv(2, 2), cv(3, 2), cv(3, 1), cv(3, 0), cv(2, 0), cv(2, 1), cv(1, 1), cv(1, 0), cv(0, 0), cv(0, 1), cv(0, 2), cv(1, 2), cv(1, 3)]);
    rows.push(vec![cv(1, 1), cv(1, 2), cv(0, 2), cv(0, 3), cv(0, 4), cv(1, 4), cv(1, 3), cv(2, 3), cv(2, 4), cv(3, 4), cv(3, 3), cv(3, 2), cv(2, 2), cv(2, 1), cv(3, 1), cv(3, 0), cv(2, 0), cv(1, 0), cv(0, 0), cv(0, 1)]);
    rows.push(vec![cv(1, 3), cv(1, 2), cv(0, 2), cv(0, 1), cv(0, 0), cv(1, 0), cv(1, 1), cv(2, 1), cv(2, 0), cv(3, 0), cv(3, 1), cv(3, 2), cv(2, 2), cv(2, 3), cv(3, 3), cv(3, 4), cv(2, 4), cv(1, 4), cv(0, 4), cv(0, 3)]);
    rows.push(vec![cv(2, 1), cv(2, 2), cv(3, 2), cv(3, 3), cv(3, 4), cv(2, 4), cv(2, 3), cv(1, 3), cv(1, 4), cv(0, 4), cv(0, 3), cv(0, 2), cv(1, 2), cv(1, 1), cv(0, 1), cv(0, 0), cv(1, 0), cv(2, 0), cv(3, 0), cv(3, 1)]);
    rows.push(vec![cv(2, 3), cv(2, 2), cv(3, 2), cv(3, 1), cv(3, 0), cv(2, 0), cv(2, 1), cv(1, 1), cv(1, 0), cv(0, 0), cv(0, 1), cv(0, 2), cv(1, 2), cv(1, 3), cv(0, 3), cv(0, 4), cv(1, 4), cv(2, 4), cv(3, 4), cv(3, 3)]);
    rows.push(vec![cv(3, 1), cv(3, 0), cv(2, 0), cv(1, 0), cv(0, 0), cv(0, 1), cv(1, 1), cv(1, 2), cv(0, 2), cv(0, 3), cv(0, 4), cv(1, 4), cv(1, 3), cv(2, 3), cv(2, 4), cv(3, 4), cv(3, 3), cv(3, 2), cv(2, 2), cv(2, 1)]);
    rows.push(vec![cv(3, 3), cv(3, 4), cv(2, 4), cv(1, 4), cv(0, 4), cv(0, 3), cv(1, 3), cv(1, 2), cv(0, 2), cv(0, 1), cv(0, 0), cv(1, 0), cv(1, 1), cv(2, 1), cv(2, 0), cv(3, 0), cv(3, 1), cv(3, 2), cv(2, 2), cv(2, 3)]);
    proof {
        assert(rows@[0]@ =~= prime_table_4_5()[0]);
        assert(rows@[1]@ =~= prime_table_4_5()[1]);
        assert(rows@[2]@ =~= prime_table_4_5()[2]);
        assert(rows@[3]@ =~= prime_table_4_5()[3]);
        assert(rows@[4]@ =~= prime_table_4_5()[4]);
        assert(rows@[5]@ =~= prime_table_4_5()[5]);
        assert(rows@[6]@ =~= prime_table_4_5()[6]);
        assert(rows@[7]@ =~= prime_table_4_5()[7]);
    }
    rows
}

/// The executable rows of the 5 by 4 table.
#[verifier::loop_isolation(false)]
fn prime_rows_5_4() -> (rows: Vec<Vec<Coord>>)
    ensures
        rows@.len() == prime_table_5_4().len(),
        forall|i: int|
            0 <= i < rows@.len() ==> rows@[i]@ == #[trigger] prime_table_5_4()[i],
{
    let mut rows: Vec<Vec<Coord>> = Vec::new();
    rows.push(vec![cv(1, 0), cv(0, 0), cv(0, 1), cv(0, 2), cv(0, 3), cv(1, 3), cv(1, 2), cv(2, 2), cv(2, 3), cv(3, 3), cv(4, 3), cv(4, 2), cv(3, 2), cv(3, 1), cv(4, 1), cv(4, 0), cv(3, 0), cv(2, 0), cv(2, 1), cv(1, 1)]);
    rows.push(vec![cv(1, 1), cv(2, 1), cv(2, 0), cv(3, 0), cv(4, 0), cv(4, 1), cv(3, 1), cv(3, 2), cv(4, 2), cv(4, 3), cv(3, 3), cv(2, 3), cv(2, 2), cv(1, 2), cv(1, 3), cv(0, 3), cv(0, 2), cv(0, 1), cv(0, 0), cv(1, 0)]);
    rows.push(vec![cv(1, 2), cv(2, 2), cv(2, 3), cv(3, 3), cv(4, 3), cv(4, 2), cv(3, 2), cv(3, 1), cv(4, 1), cv(4, 0), cv(3, 0), cv(2, 0), cv(2, 1), cv(1, 1), cv(1, 0), cv(0, 0), cv(0, 1), cv(0, 2), cv(0, 3), cv(1, 3)]);
    rows.push(vec![cv(1, 3), cv(0, 3), cv(0, 2), cv(0, 1), cv(0, 0), cv(1, 0), cv(1, 1), cv(2, 1), cv(2, 0), cv(3, 0), cv(4, 0), cv(4, 1), cv(3, 1), cv(3, 2), cv(4, 2), cv(4, 3), cv(3, 3), cv(2, 3), cv(2, 2), cv(1, 2)]);
    rows.push(vec![cv(3, 0), cv(4, 0), cv(4, 1), cv(4, 2), cv(4, 3), cv(3, 3), cv(3, 2), cv(2, 2), cv(2, 3), cv(1, 3), cv(0, 3), cv(0, 2), cv(1, 2), cv(1, 1), cv(0, 1), cv(0, 0), cv(1, 0), cv(2, 0), cv(2, 1), cv(3, 1)]);
    rows.push(vec![cv(3, 1), cv(2, 1), cv(2, 0), cv(1, 0), cv(0, 0), cv(0, 1), cv(1, 1), cv(1, 2), cv(0, 2), cv(0, 3), cv(1, 3), cv(2, 3), cv(2, 2), cv(3, 2), cv(3, 3), cv(4, 3), cv(4, 2), cv(4, 1), cv(4, 0), cv(3, 0)]);
    rows.push(vec![cv(3, 2), cv(2, 2), cv(2, 3), cv(1, 3), cv(0, 3), cv(0, 2), cv(1, 2), cv(1, 1), cv(0, 1), cv(0, 0), cv(1, 0), cv(2, 0), cv(2, 1), cv(3, 1), cv(3, 0), cv(4, 0), cv(4, 1), cv(4, 2), cv(4, 3), cv(3, 3)]);
    rows.push(vec![cv(3, 3), cv(4, 3), cv(4, 2), cv(4, 1), cv(4, 0), cv(3, 0), cv(3, 1), cv(2, 1), cv(2, 0), cv(1, 0), cv(0, 0), cv(0, 1), cv(1, 1), cv(1, 2), cv(0, 2), cv(0, 3), cv(1, 3), cv(2, 3), cv(2, 2), cv(3, 2)]);
    proof {
        assert(rows@[0]@ =~= prime_table_5_4()[0]);
        assert(rows@[1]@ =~= prime_table_5_4()[1]);
        assert(rows@[2]@ =~= prime_table_5_4()[2]);
        assert(rows@[3]@ =~= prime_table_5_4()[3]);
        assert(rows@[4]@ =~= prime_table_5_4()[4]);
        assert(rows@[5]@ =~= prime_table_5_4()[5]);
        assert(rows@[6]@ =~= prime_table_5_4()[6]);
        assert(rows@[7]@ =~= prime_table_5_4()[7]);
    }
    rows
}

/// The tabulated Hamiltonian paths for the prime dimensions, or an
/// empty list for any other dimensions, reproducing the
/// specification-level table row for row.
fn prime_rows(width: usize, height: usize) -> (rows: Vec<Vec<Coord>>)
    ensures
        rows@.len() == prime_table(width as int, height as int).len(),
        forall|i: int|
            0 <= i < rows@.len() ==> rows@[i]@ == #[trigger] prime_table(
                width as int,
                height as int,
            )[i],
        (rows@.len() > 0) == prime_dims(width as int, height as int),
        rows@.len() > 0 ==> 2 <= width && width <= 5 && 2 <= height && height <= 5,
{
    if width == 2 && height == 2 {
        prime_rows_2_2()
    } else if width == 2 && height == 3 {
        prime_rows_2_3()
    } else if width == 3 && height == 2 {
        prime_rows_3_2()
    } else if width == 3 && height == 3 {
        prime_rows_3_3()
    } else if width == 4 && height == 5 {
        prime_rows_4_5()
    } else if width == 5 && height == 4 {
        prime_rows_5_4()
    } else {
        Vec::new()
    }
}

} // verus!
