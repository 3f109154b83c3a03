//! Points, the grid's default dimensions, and the set-up of a run.

pub mod person;
pub mod terrain;

use crate::simulation::agent_on;
use crate::simulation::escaped_count;
use crate::simulation::sim_inv;
use person::Person;
use terrain::lemma_occupied_none;
use terrain::lemma_occupied_update;
use terrain::lemma_offset_injective;
use terrain::lemma_placeable_bound;
use terrain::lemma_placeable_fill;
use terrain::sample_cells;
use terrain::sample_free_count;
use terrain::Terrain;
use vstd::prelude::*;

verus! {

/// Default width of the grid.
pub const XSIZE: usize = 512;

/// Default height of the grid.
pub const YSIZE: usize = 128;

/// Number of exit cells of a grid.
pub const NBEXIT: usize = 4;

/// Abscissa of the point every agent steers towards.
pub const AZIMUTH_X: isize = -2;

/// Ordinate of the point every agent steers towards.
pub const AZIMUTH_Y: isize = 130;

/// A cell coordinate; equality is component-wise.
#[derive(Debug, Clone, Copy, PartialEq, Eq, Structural)]
pub struct Point {
    pub x: isize,
    pub y: isize,
}

/// The fixed point that every agent steers towards.
pub open spec fn azimuth() -> Point {
    Point { x: AZIMUTH_X, y: AZIMUTH_Y }
}

/// Squared Euclidean distance between two points.
pub open spec fn sq_dist(p: Point, q: Point) -> int {
    (p.x - q.x) * (p.x - q.x) + (p.y - q.y) * (p.y - q.y)
}

/// Absolute difference of two machine integers, as an unsigned wide integer.
fn abs_diff(a: isize, b: isize) -> (r: u128)
    ensures
        r as int == if a >= b { a - b } else { b - a },
{
    let d: i128 = a as i128 - b as i128;
    if d < 0 {
        (-d) as u128
    } else {
        d as u128
    }
}

impl Point {
    /// Squared distance to `other`; only the order of such values matters.
    pub fn square_distance_to(&self, other: &Point) -> (r: u128)
        requires
            sq_dist(*self, *other) <= u128::MAX,
        ensures
            r as int == sq_dist(*self, *other),
    {
        let dx = abs_diff(self.x, other.x);
        let dy = abs_diff(self.y, other.y);
        proof {
            let ddx = self.x - other.x;
            let ddy = self.y - other.y;
            assert(dx as int * dx as int == ddx * ddx) by (nonlinear_arith)
                requires dx as int == ddx || dx as int == -ddx;
            assert(dy as int * dy as int == ddy * ddy) by (nonlinear_arith)
                requires dy as int == ddy || dy as int == -ddy;
            assert(0 <= dx as int * dx as int) by (nonlinear_arith);
            assert(0 <= dy as int * dy as int) by (nonlinear_arith);
        }
        dx * dx + dy * dy
    }
}

/// Every point of the machine's coordinate range is close enough to the
/// azimuth for its squared distance to fit in a `u128`.
pub proof fn lemma_azimuth_distance_fits(p: Point)
    ensures
        0 <= sq_dist(p, azimuth()) <= u128::MAX,
{
    let dx: int = p.x - AZIMUTH_X;
    let dy: int = p.y - AZIMUTH_Y;
    let b: int = 0x8000_0000_0000_0000int + 130;
    assert(-b <= dx <= b);
    assert(-b <= dy <= b);
    assert(0 <= dx * dx <= b * b) by (nonlinear_arith)
        requires -b <= dx <= b;
    assert(0 <= dy * dy <= b * b) by (nonlinear_arith)
        requires -b <= dy <= b;
    assert(b * b + b * b <= u128::MAX) by (nonlinear_arith)
        requires b == 0x8000_0000_0000_0000int + 130;
}

/// Why a run could not be set up.
#[derive(Debug, Clone, Copy, PartialEq, Eq, Structural)]
pub enum SetupError {
    /// The grid has fewer cells that can receive an agent than agents asked for.
    InsufficientSpace,
}

/// Builds the sample grid `xsize` by `ysize` and places `nb_pers` agents on
/// it, with ids 10, 20, 30 and so on, each on a cell drawn with the placement
/// generator among the free cells that are no exit. Fails, placing nobody,
/// when the grid has too few such cells.
pub fn initialize_terrain_and_users(nb_pers: usize, xsize: usize, ysize: usize) -> (r: Result<
    (Terrain, Vec<Person>),
    SetupError,
>)
    requires
        2 <= xsize,
        2 <= ysize,
        xsize * ysize * 16 <= isize::MAX,
    ensures
        r is Err <==> nb_pers > sample_free_count(xsize as int, ysize as int),
        r matches Err(e) ==> e == SetupError::InsufficientSpace,
        r matches Ok((t, ps)) ==> {
            &&& sim_inv(t, ps@)
            &&& t.width() == xsize
            &&& t.height() == ysize
            &&& t.exited() == 0
            &&& t.occupied() == nb_pers
            &&& ps@.len() == nb_pers
            &&& forall|i: int|
                0 <= i < nb_pers ==> (#[trigger] ps@[i]).id == (i + 1) * 10 && !ps@[i].has_escaped
            &&& forall|o: int|
                0 <= o < t.cells().len() ==> #[trigger] t.cells()[o] == sample_cells(
                    xsize as int,
                    ysize as int,
                )[o] || t.cells()[o] > 0
        },
{
    let mut terrain: Terrain = Terrain::new_sample(xsize, ysize);
    let free = terrain.count_free_points();
    if nb_pers > free {
        return Err(SetupError::InsufficientSpace);
    }
    let ghost t0 = terrain;
    proof {
        terrain.lemma_dims();
        lemma_placeable_bound(terrain.cells(), xsize as int, ysize as int, terrain.cells().len() as int);
        lemma_occupied_none(terrain.cells());
        assert(nb_pers * 10 <= isize::MAX) by (nonlinear_arith)
            requires
                nb_pers <= xsize * ysize,
                xsize * ysize * 16 <= isize::MAX,
        ;
    }
    let mut persons: Vec<Person> = Vec::with_capacity(nb_pers);
    let mut i: usize = 0;
    while i < nb_pers
        invariant
            i <= nb_pers,
            nb_pers * 10 <= isize::MAX,
            nb_pers <= free,
            free == t0.free_count(),
            t0.cells() == sample_cells(xsize as int, ysize as int),
            terrain.width() == xsize,
            terrain.height() == ysize,
            terrain.exited() == 0,
            terrain.cells().len() == t0.cells().len(),
            terrain.free_count() == free - i,
            terrain.occupied() == i,
            persons@.len() == i,
            sim_inv(terrain, persons@),
            forall|k: int| 0 <= k < i ==> (#[trigger] persons@[k]).id == (k + 1) * 10 && !persons@[k].has_escaped,
            forall|o: int|
                0 <= o < terrain.cells().len() ==> #[trigger] terrain.cells()[o] == t0.cells()[o]
                    || terrain.cells()[o] > 0,
        decreases nb_pers - i,
    {
        let pt = match terrain.get_random_free_point() {
            Some(p) => p,
            None => {
                return Err(SetupError::InsufficientSpace);
            },
        };
        let id: usize = (i + 1) * 10;
        let mut new_pers = Person::new(id, pt);
        let ghost before = terrain;
        let ghost ps0 = persons@;
        new_pers.place_on_terrain(&mut terrain);
        persons.push(new_pers);
        proof {
            let o = before.offset(pt);
            before.lemma_in_bounds_offset(pt);
            lemma_placeable_fill(before.cells(), xsize as int, ysize as int, o, id as isize, before.cells().len() as int);
            lemma_occupied_update(before.cells(), o, id as isize);
            assert(persons@.drop_last() =~= ps0);
            assert(escaped_count(persons@) == escaped_count(ps0));
            assert forall|k: int| 0 <= k < persons@.len() && !(#[trigger] persons@[k]).has_escaped implies agent_on(
                terrain,
                persons@[k],
            ) by {
                if k < i {
                    assert(persons@[k] == ps0[k]);
                    assert(agent_on(before, ps0[k]));
                    let ok = before.offset(ps0[k].position);
                    before.lemma_in_bounds_offset(ps0[k].position);
                    if ok == o {
                        lemma_offset_injective(xsize as int, ps0[k].position, pt);
                    }
                }
            }
            assert forall|a: int, b: int|
                0 <= a < persons@.len() && 0 <= b < persons@.len() && a != b implies #[trigger] persons@[a].id
                != #[trigger] persons@[b].id by {
                if a < i && b < i {
                    assert(ps0[a].id != ps0[b].id);
                }
            }
            assert forall|o2: int|
                0 <= o2 < terrain.cells().len() implies #[trigger] terrain.cells()[o2] == t0.cells()[o2]
                    || terrain.cells()[o2] > 0 by {
                assert(before.cells()[o2] == t0.cells()[o2] || before.cells()[o2] > 0);
            }
        }
        i = i + 1;
    }
    Ok((terrain, persons))
}

} // verus!
