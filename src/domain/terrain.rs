//! The grid shared by all agents: cell values, exit cells and the exit counter.

use super::Point;
use super::NBEXIT;
use rand::rngs::StdRng;
use rand::Rng;
use rand::SeedableRng;
use vstd::arithmetic::div_mod::lemma_div_pos_is_pos;
use vstd::arithmetic::div_mod::lemma_fundamental_div_mod;
use vstd::arithmetic::div_mod::lemma_mod_pos_bound;
use vstd::prelude::*;

verus! {

/// Seed of the generator that picks the cell of a newly placed agent, so that
/// two runs place their agents alike.
pub const PLACEMENT_SEED: u64 = 1;

/// rand's standard generator, carried through as an opaque value.
#[verifier::external_type_specification]
#[verifier::external_body]
pub struct ExStdRng(StdRng);

/// Relies on rand's `SeedableRng::seed_from_u64`: a generator built from `seed`.
#[verifier::external_body]
fn seeded_rng(seed: u64) -> StdRng {
    StdRng::seed_from_u64(seed)
}

/// Relies on rand's `Rng::gen_range` over `0..n`: it panics on an empty range
/// and otherwise returns a value of the range.
#[verifier::external_body]
fn rng_below(rng: &mut StdRng, n: usize) -> (r: usize)
    requires
        n > 0,
    ensures
        r < n,
{
    rng.gen_range(0..n)
}

/// Whether `p` is an exit cell of a grid `ysize` high: the two leftmost
/// columns of its two top rows.
pub open spec fn exit_cell(ysize: int, p: Point) -> bool {
    (p.x == 0 || p.x == 1) && (p.y == ysize - 1 || p.y == ysize - 2)
}

/// The exit cells of a grid `ysize` high, in the order they are stored.
pub open spec fn exit_points_of(ysize: int) -> Seq<Point> {
    seq![
        Point { x: 0, y: (ysize - 1) as isize },
        Point { x: 0, y: (ysize - 2) as isize },
        Point { x: 1, y: (ysize - 1) as isize },
        Point { x: 1, y: (ysize - 2) as isize },
    ]
}

/// Number of cells holding a positive value, that is an agent's id.
pub open spec fn occupied_count(s: Seq<isize>) -> nat
    decreases s.len(),
{
    if s.len() == 0 {
        0
    } else {
        occupied_count(s.drop_last()) + if s.last() > 0 {
            1nat
        } else {
            0nat
        }
    }
}

/// The point whose cell is stored at offset `off` of a grid `xsize` wide.
pub open spec fn point_of(xsize: int, off: int) -> Point {
    Point { x: (off % xsize) as isize, y: (off / xsize) as isize }
}

/// Whether the cell at offset `off` can receive a new agent: it is free and
/// it is not an exit.
pub open spec fn placeable(data: Seq<isize>, xsize: int, ysize: int, off: int) -> bool {
    data[off] == 0 && !exit_cell(ysize, point_of(xsize, off))
}

/// Number of placeable cells among the offsets below `n`.
pub open spec fn placeable_count(data: Seq<isize>, xsize: int, ysize: int, n: int) -> nat
    decreases n,
{
    if n <= 0 {
        0
    } else {
        placeable_count(data, xsize, ysize, n - 1) + if placeable(data, xsize, ysize, n - 1) {
            1nat
        } else {
            0nat
        }
    }
}

/// Whether `p` lies in the inclusive rectangle spanned by `ll` and `ur`.
pub open spec fn in_rect(ll: Point, ur: Point, p: Point) -> bool {
    ll.x <= p.x <= ur.x && ll.y <= p.y <= ur.y
}

/// The exit cells, one by one.
pub proof fn lemma_exit_points(ysize: int)
    requires
        2 <= ysize <= isize::MAX,
    ensures
        exit_points_of(ysize).len() == 4,
        exit_points_of(ysize)[0] == (Point { x: 0, y: (ysize - 1) as isize }),
        exit_points_of(ysize)[1] == (Point { x: 0, y: (ysize - 2) as isize }),
        exit_points_of(ysize)[2] == (Point { x: 1, y: (ysize - 1) as isize }),
        exit_points_of(ysize)[3] == (Point { x: 1, y: (ysize - 2) as isize }),
        forall|p: Point| exit_cell(ysize, p) <==> exit_points_of(ysize).contains(p),
{
    let s = exit_points_of(ysize);
    assert forall|p: Point| exit_cell(ysize, p) implies s.contains(p) by {
        if p == s[0] {
        } else if p == s[1] {
            assert(s[1] == p);
        } else if p == s[2] {
            assert(s[2] == p);
        } else {
            assert(s[3] == p);
        }
    }
    assert forall|p: Point| s.contains(p) implies exit_cell(ysize, p) by {
        let j = choose|j: int| 0 <= j < s.len() && s[j] == p;
        assert(j == 0 || j == 1 || j == 2 || j == 3);
    }
}

/// Counting placeable cells further never gives fewer.
pub proof fn lemma_placeable_mono(data: Seq<isize>, xsize: int, ysize: int, n: int, m: int)
    requires
        n <= m,
    ensures
        placeable_count(data, xsize, ysize, n) <= placeable_count(data, xsize, ysize, m),
    decreases m - n,
{
    if n < m {
        lemma_placeable_mono(data, xsize, ysize, n, m - 1);
    }
}

/// Updating one entry changes the number of occupied cells by what that
/// entry gains or loses.
pub proof fn lemma_occupied_update(s: Seq<isize>, i: int, v: isize)
    requires
        0 <= i < s.len(),
    ensures
        occupied_count(s.update(i, v)) as int == occupied_count(s) as int - (if s[i] > 0 {
            1int
        } else {
            0int
        }) + (if v > 0 {
            1int
        } else {
            0int
        }),
    decreases s.len(),
{
    let t = s.update(i, v);
    if i == s.len() - 1 {
        assert(t.drop_last() =~= s.drop_last());
    } else {
        assert(t.drop_last() =~= s.drop_last().update(i, v));
        lemma_occupied_update(s.drop_last(), i, v);
    }
}

/// A sequence without positive entries holds no agent.
pub proof fn lemma_occupied_none(s: Seq<isize>)
    requires
        forall|i: int| 0 <= i < s.len() ==> s[i] <= 0,
    ensures
        occupied_count(s) == 0,
    decreases s.len(),
{
    if s.len() > 0 {
        lemma_occupied_none(s.drop_last());
    }
}

/// There are never more placeable cells than offsets counted.
pub proof fn lemma_placeable_bound(data: Seq<isize>, xsize: int, ysize: int, n: int)
    ensures
        placeable_count(data, xsize, ysize, n) <= if n < 0 {
            0
        } else {
            n
        },
    decreases n,
{
    if n > 0 {
        lemma_placeable_bound(data, xsize, ysize, n - 1);
    }
}

/// Filling one placeable cell leaves one placeable cell fewer among the
/// offsets beyond it, and as many below it.
pub proof fn lemma_placeable_fill(
    data: Seq<isize>,
    xsize: int,
    ysize: int,
    o: int,
    v: isize,
    n: int,
)
    requires
        0 <= o < data.len(),
        placeable(data, xsize, ysize, o),
        v != 0,
        n <= data.len(),
    ensures
        placeable_count(data.update(o, v), xsize, ysize, n) == if n <= o {
            placeable_count(data, xsize, ysize, n) as int
        } else {
            placeable_count(data, xsize, ysize, n) - 1
        },
    decreases n,
{
    if n > 0 {
        lemma_placeable_fill(data, xsize, ysize, o, v, n - 1);
    }
}

/// Offsets of in-bounds points lie inside the grid.
pub proof fn lemma_offset_in_range(xsize: int, ysize: int, p: Point)
    requires
        0 <= p.x < xsize,
        0 <= p.y < ysize,
    ensures
        0 <= p.y * xsize + p.x < xsize * ysize,
{
    assert(0 <= p.y * xsize + p.x < xsize * ysize) by (nonlinear_arith)
        requires
            0 <= p.x < xsize,
            0 <= p.y < ysize,
    ;
}

/// Distinct in-bounds points have distinct offsets.
pub proof fn lemma_offset_injective(xsize: int, p: Point, q: Point)
    requires
        0 <= p.x < xsize,
        0 <= q.x < xsize,
        0 <= p.y,
        0 <= q.y,
        p.y * xsize + p.x == q.y * xsize + q.x,
    ensures
        p == q,
{
    if p.y < q.y {
        assert(p.y * xsize + p.x < q.y * xsize + q.x) by (nonlinear_arith)
            requires
                p.y < q.y,
                0 <= p.x < xsize,
                0 <= q.x,
        ;
    } else if q.y < p.y {
        assert(q.y * xsize + q.x < p.y * xsize + p.x) by (nonlinear_arith)
            requires
                q.y < p.y,
                0 <= q.x < xsize,
                0 <= p.x,
        ;
    }
}

/// The point stored at an offset of the grid is in bounds, and its offset is
/// that offset.
pub proof fn lemma_point_of(xsize: int, ysize: int, off: int)
    requires
        0 < xsize,
        0 < ysize,
        0 <= off < xsize * ysize,
        xsize * ysize <= isize::MAX,
    ensures
        0 <= point_of(xsize, off).x < xsize,
        0 <= point_of(xsize, off).y < ysize,
        point_of(xsize, off).y * xsize + point_of(xsize, off).x == off,
{
    lemma_fundamental_div_mod(off, xsize);
    lemma_mod_pos_bound(off, xsize);
    lemma_div_pos_is_pos(off, xsize);
    let q = off / xsize;
    let r = off % xsize;
    assert(q < ysize) by (nonlinear_arith)
        requires
            off == xsize * q + r,
            0 <= r,
            off < xsize * ysize,
            0 < xsize,
    ;
    assert(q * xsize == xsize * q) by (nonlinear_arith);
}

/// Column offset of the `k`-th probe around a cell: columns left to right,
/// and within a column, rows bottom to top.
pub open spec fn nb_dx(k: int) -> int {
    if k < 3 {
        -1
    } else if k < 6 {
        0
    } else {
        1
    }
}

/// Row offset of the `k`-th probe around a cell.
pub open spec fn nb_dy(k: int) -> int {
    k - 3 * (nb_dx(k) + 1) - 1
}

/// Whether `p` lies in an obstacle of the sample layout of a grid `xsize`
/// wide and `ysize` high: a tall block and a long bar.
pub open spec fn sample_obstacle(xsize: int, ysize: int, p: Point) -> bool {
    ||| (xsize / 10 <= p.x <= xsize / 10 * 2 && 1 <= p.y <= ysize - 2)
    ||| (xsize / 10 * 2 + 2 <= p.x <= xsize / 10 * 9 - 1 && ysize / 5 <= p.y <= ysize / 5 + 1)
}

/// The cells of the sample grid `xsize` wide and `ysize` high, before any
/// agent is placed.
pub open spec fn sample_cells(xsize: int, ysize: int) -> Seq<isize> {
    Seq::new(
        (xsize * ysize) as nat,
        |o: int|
            if sample_obstacle(xsize, ysize, point_of(xsize, o)) {
                -1isize
            } else {
                0isize
            },
    )
}

/// Number of cells of the sample grid that may receive an agent.
pub open spec fn sample_free_count(xsize: int, ysize: int) -> nat {
    placeable_count(sample_cells(xsize, ysize), xsize, ysize, xsize * ysize)
}

/// The grid: a `xsize` by `ysize` array of cells, each `0` (free), `-1` (an
/// obstacle) or an agent's id, with four exit cells in its top-left corner
/// and a count of the agents that left through them.
#[derive(Debug)]
pub struct Terrain {
    pub xsize: usize,
    pub ysize: usize,
    data: Vec<isize>,
    exit_points: [Point; NBEXIT],
    exited_cnt: usize,
}

impl Terrain {
    /// Number of columns.
    pub closed spec fn width(&self) -> int {
        self.xsize as int
    }

    /// Number of rows.
    pub closed spec fn height(&self) -> int {
        self.ysize as int
    }

    /// The cells, row after row from the bottom one.
    pub closed spec fn cells(&self) -> Seq<isize> {
        self.data@
    }

    /// The number of agents that left through an exit.
    pub closed spec fn exited(&self) -> nat {
        self.exited_cnt as nat
    }

    /// The stored exit cells.
    pub closed spec fn exits(&self) -> Seq<Point> {
        self.exit_points@
    }

    /// The grid holds its cells and its exits; its cells and the ids of the
    /// agents on it fit in the machine's signed word.
    pub open spec fn wf(&self) -> bool {
        &&& 2 <= self.width()
        &&& 2 <= self.height()
        &&& self.width() * self.height() * 16 <= isize::MAX
        &&& self.cells().len() == self.width() * self.height()
        &&& self.exits() == exit_points_of(self.height())
    }

    pub open spec fn in_bounds(&self, p: Point) -> bool {
        0 <= p.x < self.width() && 0 <= p.y < self.height()
    }

    /// Where the cell of `p` is stored.
    pub open spec fn offset(&self, p: Point) -> int {
        p.y * self.width() + p.x
    }

    /// The value of the cell of `p`.
    pub open spec fn cell(&self, p: Point) -> isize {
        self.cells()[self.offset(p)]
    }

    pub open spec fn is_exit(&self, p: Point) -> bool {
        exit_cell(self.height(), p)
    }

    /// Whether `p` is a cell of the grid that an agent may step into.
    pub open spec fn is_free(&self, p: Point) -> bool {
        self.in_bounds(p) && self.cell(p) == 0
    }

    /// Number of cells that may receive a new agent.
    pub open spec fn free_count(&self) -> nat {
        placeable_count(self.cells(), self.width(), self.height(), self.cells().len() as int)
    }

    /// Number of cells held by an agent.
    pub open spec fn occupied(&self) -> nat {
        occupied_count(self.cells())
    }

    /// The same grid, with other cell values and exit count.
    pub open spec fn same_shape(&self, other: &Terrain) -> bool {
        self.width() == other.width() && self.height() == other.height() && self.exits() == other.exits()
    }

    /// Each side of a well-formed grid, and its area, fit in the signed word.
    pub proof fn lemma_dims(&self)
        requires
            self.wf(),
        ensures
            self.width() * self.height() <= isize::MAX,
            self.width() * 2 <= isize::MAX,
            self.height() * 2 <= isize::MAX,
    {
        let w = self.width();
        let h = self.height();
        assert(w * h <= isize::MAX && w * 2 <= isize::MAX && h * 2 <= isize::MAX) by (nonlinear_arith)
            requires
                2 <= w,
                2 <= h,
                w * h * 16 <= isize::MAX,
        ;
    }

    pub proof fn lemma_in_bounds_offset(&self, p: Point)
        requires
            self.wf(),
            self.in_bounds(p),
        ensures
            0 <= self.offset(p) < self.cells().len(),
    {
        lemma_offset_in_range(self.xsize as int, self.ysize as int, p);
    }

    /// The cells as stored, for a display to read.
    pub fn get_data_ref(&self) -> (r: &Vec<isize>)
        ensures
            r@ == self.cells(),
    {
        &self.data
    }

    /// An empty grid: every cell free, no agent gone.
    pub fn new(xsize: usize, ysize: usize) -> (r: Terrain)
        requires
            2 <= xsize,
            2 <= ysize,
            xsize * ysize * 16 <= isize::MAX,
        ensures
            r.wf(),
            r.width() == xsize,
            r.height() == ysize,
            r.exited() == 0,
            forall|i: int| 0 <= i < r.cells().len() ==> #[trigger] r.cells()[i] == 0,
    {
        assert(xsize * ysize <= isize::MAX && ysize * 2 <= isize::MAX) by (nonlinear_arith)
            requires
                2 <= xsize,
                2 <= ysize,
                xsize * ysize * 16 <= isize::MAX,
        ;
        let n: usize = xsize * ysize;
        let mut data: Vec<isize> = Vec::with_capacity(n);
        let mut i: usize = 0;
        while i < n
            invariant
                i <= n,
                data@.len() == i,
                forall|j: int| 0 <= j < i ==> #[trigger] data@[j] == 0,
            decreases n - i,
        {
            data.push(0);
            i = i + 1;
        }
        let exit_points = Terrain::create_exit_points(ysize);
        Terrain { xsize, ysize, data, exit_points, exited_cnt: 0 }
    }

    /// The exit cells of a grid `ysize` high.
    fn create_exit_points(ysize: usize) -> (r: [Point; NBEXIT])
        requires
            2 <= ysize <= isize::MAX,
        ensures
            r@ == exit_points_of(ysize as int),
    {
        let top: isize = ysize as isize - 1;
        let below: isize = ysize as isize - 2;
        let r = [
            Point { x: 0, y: top },
            Point { x: 0, y: below },
            Point { x: 1, y: top },
            Point { x: 1, y: below },
        ];
        assert(r@ =~= exit_points_of(ysize as int));
        r
    }

    pub fn get_exit_points(&self) -> (r: &[Point; NBEXIT])
        ensures
            r@ == self.exits(),
    {
        &self.exit_points
    }

    pub fn get_exited_cnt(&self) -> (r: usize)
        ensures
            r == self.exited(),
    {
        self.exited_cnt
    }

    /// Where the cell of `point` is stored.
    fn get_offset(&self, point: &Point) -> (r: usize)
        requires
            self.wf(),
            self.in_bounds(*point),
        ensures
            r == self.offset(*point),
            r < self.cells().len(),
    {
        proof {
            self.lemma_in_bounds_offset(*point);
            self.lemma_dims();
            let yy: int = point.y as int;
            assert((point.y as usize) as int == yy);
            assert(self.xsize * yy == yy * self.xsize) by (nonlinear_arith);
        }
        self.xsize * point.y as usize + point.x as usize
    }

    /// The point whose cell is stored at `offset`.
    fn get_point(&self, offset: usize) -> (r: Point)
        requires
            self.wf(),
            offset < self.cells().len(),
        ensures
            r == point_of(self.xsize as int, offset as int),
            self.in_bounds(r),
            self.offset(r) == offset,
    {
        proof {
            assert(self.xsize * self.ysize <= isize::MAX) by (nonlinear_arith)
                requires
                    self.xsize * self.ysize * 16 <= isize::MAX,
            ;
            lemma_point_of(self.xsize as int, self.ysize as int, offset as int);
        }
        let x = (offset % self.xsize) as isize;
        let y = (offset / self.xsize) as isize;
        Point { x, y }
    }

    /// Writes `value` into the cell of `point`.
    pub fn set_pt_val(&mut self, point: &Point, value: isize)
        requires
            old(self).wf(),
            old(self).in_bounds(*point),
        ensures
            final(self).wf(),
            final(self).same_shape(old(self)),
            final(self).exited() == old(self).exited(),
            final(self).cells() == old(self).cells().update(old(self).offset(*point), value),
            forall|q: Point|
                old(self).in_bounds(q) ==> #[trigger] final(self).cell(q) == if q == *point {
                    value
                } else {
                    old(self).cell(q)
                },
    {
        let offset = self.get_offset(point);
        self.data.set(offset, value);
        proof {
            assert forall|q: Point| old(self).in_bounds(q) implies #[trigger] self.cell(q)
                == if q == *point {
                value
            } else {
                old(self).cell(q)
            } by {
                self.lemma_in_bounds_offset(q);
                if q != *point && self.offset(q) == self.offset(*point) {
                    lemma_offset_injective(self.xsize as int, q, *point);
                }
            }
        }
    }

    /// The value of the cell of `point`.
    pub fn get_pt_val(&self, point: &Point) -> (r: isize)
        requires
            self.wf(),
            self.in_bounds(*point),
        ensures
            r == self.cell(*point),
    {
        let offset = self.get_offset(point);
        self.data[offset]
    }

    /// Marks every cell of the inclusive rectangle from `lower_left` to
    /// `upper_right` as an obstacle; an empty rectangle changes nothing.
    pub fn add_obstacle(&mut self, lower_left: Point, upper_right: Point)
        requires
            old(self).wf(),
            lower_left.x <= upper_right.x && lower_left.y <= upper_right.y ==> old(self).in_bounds(
                lower_left,
            ) && old(self).in_bounds(upper_right),
        ensures
            final(self).wf(),
            final(self).same_shape(old(self)),
            final(self).exited() == old(self).exited(),
            forall|q: Point|
                old(self).in_bounds(q) ==> #[trigger] final(self).cell(q) == if in_rect(
                    lower_left,
                    upper_right,
                    q,
                ) {
                    -1isize
                } else {
                    old(self).cell(q)
                },
            forall|i: int|
                0 <= i < old(self).cells().len() ==> #[trigger] final(self).cells()[i] == -1
                    || final(self).cells()[i] == old(self).cells()[i],
    {
        if lower_left.x > upper_right.x || lower_left.y > upper_right.y {
            return ;
        }
        proof {
            self.lemma_dims();
        }
        let ghost start = *self;
        let mut x: isize = lower_left.x;
        while x <= upper_right.x
            invariant
                start.wf(),
                start.in_bounds(lower_left),
                start.in_bounds(upper_right),
                start.width() * 2 <= isize::MAX,
                start.height() * 2 <= isize::MAX,
                lower_left.x <= x <= upper_right.x + 1,
                lower_left.y <= upper_right.y,
                self.wf(),
                self.same_shape(&start),
                self.exited() == start.exited(),
                forall|q: Point|
                    start.in_bounds(q) ==> #[trigger] self.cell(q) == if in_rect(
                        lower_left,
                        Point { x: (x - 1) as isize, y: upper_right.y },
                        q,
                    ) {
                        -1isize
                    } else {
                        start.cell(q)
                    },
                forall|i: int|
                    0 <= i < start.cells().len() ==> #[trigger] self.cells()[i] == -1
                        || self.cells()[i] == start.cells()[i],
            decreases upper_right.x + 1 - x,
        {
            let mut y: isize = lower_left.y;
            while y <= upper_right.y
                invariant
                    start.wf(),
                    start.in_bounds(lower_left),
                    start.in_bounds(upper_right),
                    start.width() * 2 <= isize::MAX,
                    start.height() * 2 <= isize::MAX,
                    lower_left.x <= x <= upper_right.x,
                    lower_left.y <= y <= upper_right.y + 1,
                    self.wf(),
                    self.same_shape(&start),
                    self.exited() == start.exited(),
                    forall|q: Point|
                        start.in_bounds(q) ==> #[trigger] self.cell(q) == if in_rect(
                            lower_left,
                            Point { x: (x - 1) as isize, y: upper_right.y },
                            q,
                        ) || (q.x == x && lower_left.y <= q.y < y) {
                            -1isize
                        } else {
                            start.cell(q)
                        },
                    forall|i: int|
                        0 <= i < start.cells().len() ==> #[trigger] self.cells()[i] == -1
                            || self.cells()[i] == start.cells()[i],
                decreases upper_right.y + 1 - y,
            {
                let ghost before = *self;
                self.set_pt_val(&Point { x, y }, -1);
                assert forall|i: int|
                    0 <= i < start.cells().len() implies #[trigger] self.cells()[i] == -1
                        || self.cells()[i] == start.cells()[i] by {
                    before.lemma_in_bounds_offset(Point { x, y });
                    assert(before.cells().len() == start.cells().len());
                    assert(before.cells()[i] == -1 || before.cells()[i] == start.cells()[i]);
                    assert(self.cells()[i] == before.cells().update(before.offset(Point { x, y }), -1isize)[i]);
                }
                y = y + 1;
            }
            x = x + 1;
        }
    }

    /// Whether the cell at column `x` and row `y` exists and is free.
    pub open spec fn free_at(&self, x: int, y: int) -> bool {
        0 <= x < self.width() && 0 <= y < self.height() && self.cells()[y * self.width() + x] == 0
    }

    /// The free cells among the first `n` probes around `c`, the centre left out.
    pub open spec fn neighbors_upto(&self, c: Point, n: int) -> Seq<Point>
        decreases n,
    {
        if n <= 0 {
            seq![]
        } else {
            let prev = self.neighbors_upto(c, n - 1);
            let x = c.x + nb_dx(n - 1);
            let y = c.y + nb_dy(n - 1);
            if n - 1 != 4 && self.free_at(x, y) {
                prev.push(Point { x: x as isize, y: y as isize })
            } else {
                prev
            }
        }
    }

    /// The free cells of the 3x3 block around `c`, the centre left out, in
    /// the order they are probed.
    pub open spec fn free_neighbors(&self, c: Point) -> Seq<Point> {
        self.neighbors_upto(c, 9)
    }

    /// Every listed neighbour is a free cell of the grid, next to `c` and
    /// other than `c`.
    pub proof fn lemma_neighbors_free(&self, c: Point, n: int)
        requires
            self.wf(),
            n <= 9,
        ensures
            forall|j: int|
                0 <= j < self.neighbors_upto(c, n).len() ==> {
                    let q = #[trigger] self.neighbors_upto(c, n)[j];
                    &&& self.is_free(q)
                    &&& q != c
                    &&& c.x - 1 <= q.x <= c.x + 1
                    &&& c.y - 1 <= q.y <= c.y + 1
                },
        decreases n,
    {
        self.lemma_dims();
        if n > 0 {
            self.lemma_neighbors_free(c, n - 1);
            let prev = self.neighbors_upto(c, n - 1);
            let x = c.x + nb_dx(n - 1);
            let y = c.y + nb_dy(n - 1);
            if n - 1 != 4 && self.free_at(x, y) {
                let q = Point { x: x as isize, y: y as isize };
                assert(q.x == x && q.y == y);
                assert(self.is_free(q));
                let s = self.neighbors_upto(c, n);
                assert(s == prev.push(q));
                assert forall|j: int| 0 <= j < s.len() - 1 implies s[j] == prev[j] by {}
            }
        }
    }

    /// The sample grid: an empty grid with the two obstacles of the sample
    /// layout.
    pub fn new_sample(xsize: usize, ysize: usize) -> (r: Terrain)
        requires
            2 <= xsize,
            2 <= ysize,
            xsize * ysize * 16 <= isize::MAX,
        ensures
            r.wf(),
            r.width() == xsize,
            r.height() == ysize,
            r.exited() == 0,
            forall|q: Point|
                r.in_bounds(q) ==> #[trigger] r.cell(q) == if sample_obstacle(
                    xsize as int,
                    ysize as int,
                    q,
                ) {
                    -1isize
                } else {
                    0isize
                },
            forall|i: int|
                0 <= i < r.cells().len() ==> #[trigger] r.cells()[i] == 0 || r.cells()[i] == -1,
            r.cells() == sample_cells(xsize as int, ysize as int),
    {
        let mut terr = Terrain::new(xsize, ysize);
        proof {
            terr.lemma_dims();
        }
        let xs = xsize as isize;
        let ys = ysize as isize;
        let large_ll = Point { x: xs / 10, y: 1 };
        let large_ur = Point { x: xs / 10 * 2, y: ys - 2 };
        let long_ll = Point { x: xs / 10 * 2 + 2, y: ys / 5 };
        let long_ur = Point { x: xs / 10 * 9 - 1, y: ys / 5 + 1 };
        let ghost t0 = terr;
        terr.add_obstacle(large_ll, large_ur);
        let ghost t1 = terr;
        terr.add_obstacle(long_ll, long_ur);
        proof {
            assert forall|q: Point| terr.in_bounds(q) implies #[trigger] terr.cell(q) == if sample_obstacle(
                xsize as int,
                ysize as int,
                q,
            ) {
                -1isize
            } else {
                0isize
            } by {
                t0.lemma_in_bounds_offset(q);
                assert(t1.cell(q) == if in_rect(large_ll, large_ur, q) {
                    -1isize
                } else {
                    t0.cell(q)
                });
            }
            assert forall|i: int| 0 <= i < terr.cells().len() implies #[trigger] terr.cells()[i] == 0
                || terr.cells()[i] == -1 by {
                assert(t1.cells()[i] == -1 || t1.cells()[i] == t0.cells()[i]);
            }
            let sc = sample_cells(xsize as int, ysize as int);
            assert forall|o: int| 0 <= o < terr.cells().len() implies #[trigger] terr.cells()[o]
                == sc[o] by {
                lemma_point_of(xsize as int, ysize as int, o);
                let q = point_of(xsize as int, o);
                assert(terr.in_bounds(q));
                assert(terr.offset(q) == o);
                assert(terr.cell(q) == terr.cells()[o]);
                assert(sc[o] == if sample_obstacle(xsize as int, ysize as int, q) {
                    -1isize
                } else {
                    0isize
                });
            }
            assert(terr.cells() =~= sc);
        }
        terr
    }

    /// Number of cells held by an agent.
    pub fn count_persons_in_terrain(&self) -> (r: usize)
        requires
            self.wf(),
        ensures
            r == self.occupied(),
    {
        let mut count: usize = 0;
        let mut i: usize = 0;
        while i < self.data.len()
            invariant
                i <= self.data@.len(),
                count == occupied_count(self.data@.take(i as int)),
                count <= i,
            decreases self.data@.len() - i,
        {
            assert(self.data@.take(i + 1).drop_last() =~= self.data@.take(i as int));
            if self.data[i] > 0 {
                count = count + 1;
            }
            i = i + 1;
        }
        assert(self.data@.take(i as int) =~= self.data@);
        count
    }

    /// Whether `p` is one of the exit cells.
    pub fn is_exit_point(&self, p: &Point) -> (r: bool)
        requires
            self.wf(),
        ensures
            r == self.is_exit(*p),
    {
        proof {
            self.lemma_dims();
            lemma_exit_points(self.height());
        }
        let mut i: usize = 0;
        while i < NBEXIT
            invariant
                self.wf(),
                self.exit_points@ == exit_points_of(self.height()),
                exit_points_of(self.height()).len() == 4,
                forall|p: Point| exit_cell(self.height(), p) <==> exit_points_of(self.height()).contains(p),
                i <= NBEXIT,
                forall|j: int| 0 <= j < i ==> self.exit_points@[j] != *p,
            decreases NBEXIT - i,
        {
            if self.exit_points[i] == *p {
                return true;
            }
            i = i + 1;
        }
        false
    }

    /// Whether `prob_point` is a cell of the grid that an agent may step into.
    fn check_valid_pt(&self, prob_point: &Point) -> (r: bool)
        requires
            self.wf(),
        ensures
            r == self.is_free(*prob_point),
    {
        proof {
            self.lemma_dims();
        }
        (prob_point.x >= 0 && prob_point.x < self.xsize as isize) && (prob_point.y >= 0
            && prob_point.y < self.ysize as isize) && self.get_pt_val(prob_point) == 0
    }

    /// Whether the cell at column `x_prob` and row `y_prob` is a cell of the
    /// grid that an agent may step into.
    fn check_valid(&self, x_prob: isize, y_prob: isize) -> (r: bool)
        requires
            self.wf(),
        ensures
            r == self.is_free(Point { x: x_prob, y: y_prob }),
    {
        self.check_valid_pt(&Point { x: x_prob, y: y_prob })
    }

    /// The free cells around `center`, in the order they are probed. The
    /// list is only current while nobody else moves.
    pub fn list_possible_moves(&self, center: &Point) -> (r: Vec<Point>)
        requires
            self.wf(),
        ensures
            r@ == self.free_neighbors(*center),
    {
        proof {
            self.lemma_dims();
        }
        let mut result: Vec<Point> = Vec::with_capacity(8);
        let mut k: usize = 0;
        while k < 9
            invariant
                self.wf(),
                self.width() * 2 <= isize::MAX,
                self.height() * 2 <= isize::MAX,
                k <= 9,
                result@ == self.neighbors_upto(*center, k as int),
            decreases 9 - k,
        {
            let dx: i128 = if k < 3 {
                -1
            } else if k < 6 {
                0
            } else {
                1
            };
            let dy: i128 = k as i128 - 3 * (dx + 1) - 1;
            let x: i128 = center.x as i128 + dx;
            let y: i128 = center.y as i128 + dy;
            if k != 4 && 0 <= x && x < self.xsize as i128 && 0 <= y && y < self.ysize as i128 {
                let x_prob = x as isize;
                let y_prob = y as isize;
                if self.check_valid(x_prob, y_prob) {
                    result.push(Point { x: x_prob, y: y_prob });
                }
            }
            k = k + 1;
        }
        result
    }

    /// Moves what `src` holds to `dst` and frees `src`, unless `dst` is not
    /// free. An exit cell keeps no occupant: a move into it counts one more
    /// agent gone.
    pub fn move_src_to_dst(&mut self, src: &Point, dst: &Point) -> (r: Option<()>)
        requires
            old(self).wf(),
            old(self).in_bounds(*src),
            old(self).in_bounds(*dst),
            old(self).is_exit(*dst) ==> old(self).exited() < usize::MAX,
        ensures
            final(self).wf(),
            final(self).same_shape(old(self)),
            old(self).cell(*dst) != 0 ==> {
                &&& r is None
                &&& final(self).cells() == old(self).cells()
                &&& final(self).exited() == old(self).exited()
            },
            old(self).cell(*dst) == 0 && old(self).is_exit(*dst) ==> {
                &&& r is Some
                &&& final(self).cells() == old(self).cells().update(old(self).offset(*src), 0)
                &&& final(self).exited() == old(self).exited() + 1
            },
            old(self).cell(*dst) == 0 && !old(self).is_exit(*dst) ==> {
                &&& r is Some
                &&& final(self).cells() == old(self).cells().update(
                    old(self).offset(*dst),
                    old(self).cell(*src),
                ).update(old(self).offset(*src), 0)
                &&& final(self).exited() == old(self).exited()
            },
    {
        if self.get_pt_val(dst) != 0 {
            return None;
        } else if self.is_exit_point(dst) {
            self.exited_cnt = self.exited_cnt + 1;
        } else {
            let val = self.get_pt_val(src);
            self.set_pt_val(dst, val);
        }
        self.set_pt_val(src, 0);
        Some(())
    }

    /// Number of cells that may receive a new agent.
    pub fn count_free_points(&self) -> (r: usize)
        requires
            self.wf(),
        ensures
            r == self.free_count(),
    {
        let mut count: usize = 0;
        let mut idx: usize = 0;
        while idx < self.data.len()
            invariant
                self.wf(),
                idx <= self.data@.len(),
                count == placeable_count(self.data@, self.width(), self.height(), idx as int),
            decreases self.data@.len() - idx,
        {
            proof {
                lemma_placeable_bound(self.data@, self.width(), self.height(), idx as int);
            }
            let p = self.get_point(idx);
            if self.data[idx] == 0 && !self.is_exit_point(&p) {
                count = count + 1;
            }
            idx = idx + 1;
        }
        count
    }

    /// The `k`-th cell, in storage order, that may receive a new agent, if
    /// there are more than `k` of them.
    pub fn nth_free_point(&self, k: usize) -> (r: Option<Point>)
        requires
            self.wf(),
        ensures
            r is None <==> k >= self.free_count(),
            r matches Some(p) ==> {
                &&& self.in_bounds(p)
                &&& self.cell(p) == 0
                &&& !self.is_exit(p)
                &&& placeable(self.cells(), self.width(), self.height(), self.offset(p))
                &&& placeable_count(self.cells(), self.width(), self.height(), self.offset(p)) == k
            },
    {
        let mut count: usize = 0;
        let mut idx: usize = 0;
        while idx < self.data.len()
            invariant
                self.wf(),
                idx <= self.data@.len(),
                count == placeable_count(self.data@, self.width(), self.height(), idx as int),
                count <= k,
            decreases self.data@.len() - idx,
        {
            let p = self.get_point(idx);
            if self.data[idx] == 0 && !self.is_exit_point(&p) {
                if count == k {
                    proof {
                        lemma_placeable_mono(
                            self.data@,
                            self.width(),
                            self.height(),
                            idx + 1,
                            self.data@.len() as int,
                        );
                    }
                    return Some(p);
                }
                count = count + 1;
            }
            idx = idx + 1;
        }
        None
    }

    /// A cell, drawn with the placement generator, that may receive a new
    /// agent; `None` when there is none.
    pub fn get_random_free_point(&self) -> (r: Option<Point>)
        requires
            self.wf(),
        ensures
            r is None <==> self.free_count() == 0,
            r matches Some(p) ==> {
                &&& self.in_bounds(p)
                &&& self.cell(p) == 0
                &&& !self.is_exit(p)
                &&& placeable(self.cells(), self.width(), self.height(), self.offset(p))
            },
    {
        let sz = self.count_free_points();
        if sz > 0 {
            let mut rng = seeded_rng(PLACEMENT_SEED);
            let k = rng_below(&mut rng, sz);
            self.nth_free_point(k)
        } else {
            None
        }
    }
}

} // verus!
