//! An agent: its id, its cell, and whether it has left the grid.

use super::azimuth;
use super::lemma_azimuth_distance_fits;
use super::sq_dist;
use super::terrain::Terrain;
use super::Point;
use super::AZIMUTH_X;
use super::AZIMUTH_Y;
use vstd::prelude::*;

verus! {

/// The index of the first of the points of `moves` nearest to `target`.
pub open spec fn nearest_index(moves: Seq<Point>, target: Point) -> int
    decreases moves.len(),
{
    if moves.len() <= 1 {
        0
    } else {
        let k = nearest_index(moves.drop_last(), target);
        if sq_dist(moves.last(), target) < sq_dist(moves[k], target) {
            moves.len() - 1
        } else {
            k
        }
    }
}

/// The cell an agent standing on `pos` picks among the candidate cells
/// `moves`: the first one nearest to the azimuth, or `pos` itself when there
/// is no candidate.
pub open spec fn best_move(pos: Point, moves: Seq<Point>) -> Point {
    if moves.len() == 0 {
        pos
    } else {
        moves[nearest_index(moves, azimuth())]
    }
}

/// Whether `k` is the index of the first of the points of `moves` nearest
/// to `target`.
pub open spec fn is_first_nearest(moves: Seq<Point>, target: Point, k: int) -> bool {
    &&& 0 <= k < moves.len()
    &&& forall|j: int| 0 <= j < moves.len() ==> sq_dist(moves[k], target) <= sq_dist(#[trigger] moves[j], target)
    &&& forall|j: int| 0 <= j < k ==> sq_dist(moves[k], target) < sq_dist(#[trigger] moves[j], target)
}

/// The chosen index is the first of the nearest points: none is nearer, and
/// every point before it is farther.
pub proof fn lemma_nearest_index(moves: Seq<Point>, target: Point)
    requires
        moves.len() > 0,
    ensures
        is_first_nearest(moves, target, nearest_index(moves, target)),
    decreases moves.len(),
{
    if moves.len() > 1 {
        let prev = moves.drop_last();
        lemma_nearest_index(prev, target);
        let k = nearest_index(prev, target);
        assert forall|j: int| 0 <= j < prev.len() implies prev[j] == moves[j] by {}
    }
}

/// Move selection is a function of the candidates and the target: one index
/// alone meets the rule "first of the nearest", whatever computes it.
pub proof fn lemma_first_nearest_unique(moves: Seq<Point>, target: Point, k1: int, k2: int)
    requires
        is_first_nearest(moves, target, k1),
        is_first_nearest(moves, target, k2),
    ensures
        k1 == k2,
{
    if k1 < k2 {
        assert(sq_dist(moves[k2], target) < sq_dist(moves[k1], target));
    } else if k2 < k1 {
        assert(sq_dist(moves[k1], target) < sq_dist(moves[k2], target));
    }
}

/// An agent. It holds the cell of `position` until it has escaped through
/// an exit.
#[derive(Debug, Clone, Copy)]
pub struct Person {
    pub id: usize,
    pub position: Point,
    pub has_escaped: bool,
}

impl PartialEq for Person {
    fn eq(&self, other: &Person) -> (r: bool)
        ensures
            r == (self.id == other.id),
    {
        self.id == other.id
    }
}

impl vstd::std_specs::cmp::PartialEqSpecImpl for Person {
    open spec fn obeys_eq_spec() -> bool {
        true
    }

    open spec fn eq_spec(&self, other: &Person) -> bool {
        self.id == other.id
    }
}

impl Person {
    /// What a call `self.move_to(t, np)` leaves: the agent `p2` and the grid
    /// `t2`. An escaped agent, or a destination that is not free, changes
    /// nothing; a move into an exit frees the agent's cell, counts one more
    /// agent gone and marks the agent escaped; any other move carries the
    /// agent's cell value to `np`.
    pub open spec fn moved(self, t: Terrain, np: Point, p2: Person, t2: Terrain) -> bool {
        &&& t2.wf()
        &&& t2.same_shape(&t)
        &&& if self.has_escaped || t.cell(np) != 0 {
            &&& p2 == self
            &&& t2.cells() == t.cells()
            &&& t2.exited() == t.exited()
        } else if t.is_exit(np) {
            &&& p2 == Person { has_escaped: true, ..self }
            &&& t2.cells() == t.cells().update(t.offset(self.position), 0)
            &&& t2.exited() == t.exited() + 1
        } else {
            &&& p2 == Person { position: np, ..self }
            &&& t2.cells() == t.cells().update(t.offset(np), t.cell(self.position)).update(
                t.offset(self.position),
                0,
            )
            &&& t2.exited() == t.exited()
        }
    }

    /// What one tick of the agent on grid `t` leaves: the agent `p2` and the
    /// grid `t2`. An escaped agent changes nothing, and neither does one
    /// whose best pick among the free cells around it is its own cell (no
    /// free cell around); otherwise it moves to that pick, a free cell.
    pub open spec fn ticked(self, t: Terrain, p2: Person, t2: Terrain) -> bool {
        let np = best_move(self.position, t.free_neighbors(self.position));
        &&& t2.wf()
        &&& t2.same_shape(&t)
        &&& if self.has_escaped || np == self.position {
            &&& p2 == self
            &&& t2.cells() == t.cells()
            &&& t2.exited() == t.exited()
        } else {
            &&& t.is_free(np)
            &&& np != self.position
            &&& self.moved(t, np, p2, t2)
        }
    }

    /// A new agent on `position`, written into the grid.
    pub fn new_placed(terrain: &mut Terrain, id: usize, position: Point) -> (r: Person)
        requires
            old(terrain).wf(),
            old(terrain).in_bounds(position),
            old(terrain).cell(position) == 0,
            id <= isize::MAX,
        ensures
            r == (Person { id, position, has_escaped: false }),
            final(terrain).wf(),
            final(terrain).same_shape(old(terrain)),
            final(terrain).exited() == old(terrain).exited(),
            final(terrain).cells() == old(terrain).cells().update(
                old(terrain).offset(position),
                id as isize,
            ),
    {
        terrain.set_pt_val(&position, id as isize);
        Person { id, position, has_escaped: false }
    }

    /// An agent that is on no grid.
    pub fn new_unplaced(id: usize) -> (r: Person)
        ensures
            r == (Person { id, position: Point { x: 0, y: 0 }, has_escaped: true }),
    {
        Person { id, position: Point { x: 0, y: 0 }, has_escaped: true }
    }

    /// An agent on `position`, not yet written into any grid.
    pub fn new(id: usize, position: Point) -> (r: Person)
        ensures
            r == (Person { id, position, has_escaped: false }),
    {
        Person { id, position, has_escaped: false }
    }

    /// Among `possible_moves`, the first of those nearest to the azimuth;
    /// the agent's own cell when there is none.
    pub fn choose_best_move(&self, possible_moves: &Vec<Point>) -> (r: Point)
        ensures
            r == best_move(self.position, possible_moves@),
    {
        let n = possible_moves.len();
        if n == 0 {
            return self.position;
        }
        let target = Point { x: AZIMUTH_X, y: AZIMUTH_Y };
        proof {
            lemma_azimuth_distance_fits(possible_moves@[0]);
        }
        let mut best: usize = 0;
        let mut best_dist = possible_moves[0].square_distance_to(&target);
        let mut i: usize = 1;
        while i < n
            invariant
                n == possible_moves@.len(),
                target == azimuth(),
                1 <= i <= n,
                best < i,
                best as int == nearest_index(possible_moves@.take(i as int), target),
                best_dist as int == sq_dist(possible_moves@[best as int], target),
            decreases n - i,
        {
            proof {
                lemma_azimuth_distance_fits(possible_moves@[i as int]);
                let s = possible_moves@.take(i + 1);
                assert(s.drop_last() =~= possible_moves@.take(i as int));
                assert(s[best as int] == possible_moves@[best as int]);
            }
            let d = possible_moves[i].square_distance_to(&target);
            if d < best_dist {
                best = i;
                best_dist = d;
            }
            i = i + 1;
        }
        proof {
            assert(possible_moves@.take(n as int) =~= possible_moves@);
        }
        possible_moves[best]
    }

    /// Writes the agent's id into the cell it stands on.
    pub fn place_on_terrain(&mut self, terrain: &mut Terrain)
        requires
            old(terrain).wf(),
            old(terrain).in_bounds(old(self).position),
            old(terrain).cell(old(self).position) == 0,
            old(self).id <= isize::MAX,
        ensures
            *final(self) == (Person { has_escaped: false, ..*old(self) }),
            final(terrain).wf(),
            final(terrain).same_shape(old(terrain)),
            final(terrain).exited() == old(terrain).exited(),
            final(terrain).cells() == old(terrain).cells().update(
                old(terrain).offset(old(self).position),
                old(self).id as isize,
            ),
    {
        terrain.set_pt_val(&self.position, self.id as isize);
        self.has_escaped = false;
    }

    /// Frees the cell the agent stands on and marks it escaped.
    pub fn remove_from_terrain(&mut self, terrain: &mut Terrain)
        requires
            old(terrain).wf(),
            old(terrain).in_bounds(old(self).position),
        ensures
            *final(self) == (Person { has_escaped: true, ..*old(self) }),
            final(terrain).wf(),
            final(terrain).same_shape(old(terrain)),
            final(terrain).exited() == old(terrain).exited(),
            final(terrain).cells() == old(terrain).cells().update(
                old(terrain).offset(old(self).position),
                0,
            ),
    {
        terrain.set_pt_val(&self.position, 0);
        self.has_escaped = true;
    }

    /// Tries to move the agent to `new_point`: into an exit it escapes,
    /// elsewhere it takes the cell; a cell that is not free leaves all as it
    /// was.
    pub fn move_to(&mut self, terrain: &mut Terrain, new_point: &Point)
        requires
            old(terrain).wf(),
            !old(self).has_escaped ==> {
                &&& old(terrain).in_bounds(old(self).position)
                &&& old(terrain).in_bounds(*new_point)
                &&& old(terrain).is_exit(*new_point) ==> old(terrain).exited() < usize::MAX
            },
        ensures
            old(self).moved(*old(terrain), *new_point, *final(self), *final(terrain)),
    {
        if self.has_escaped {
        } else if terrain.is_exit_point(new_point) {
            if terrain.move_src_to_dst(&self.position, new_point).is_some() {
                self.remove_from_terrain(terrain);
                proof {
                    let t = *old(terrain);
                    let o = t.offset(old(self).position);
                    t.lemma_in_bounds_offset(old(self).position);
                    assert(terrain.cells() =~= t.cells().update(o, 0));
                }
            }
        } else {
            if terrain.move_src_to_dst(&self.position, new_point).is_some() {
                self.position = *new_point;
            }
        }
    }

    /// One tick of the agent: it looks at the free cells around it, picks
    /// the best one and tries to move there. An escaped agent, or one with no
    /// free cell around, stays as it is.
    pub fn look_and_move(&mut self, terrain: &mut Terrain)
        requires
            old(terrain).wf(),
            !old(self).has_escaped ==> {
                &&& old(terrain).in_bounds(old(self).position)
                &&& old(terrain).exited() < usize::MAX
            },
        ensures
            old(self).ticked(*old(terrain), *final(self), *final(terrain)),
    {
        let moves = terrain.list_possible_moves(&self.position);
        let good_point = self.choose_best_move(&moves);
        proof {
            terrain.lemma_neighbors_free(self.position, 9);
            if moves@.len() > 0 {
                lemma_nearest_index(moves@, azimuth());
            }
        }
        if good_point != self.position {
            self.move_to(terrain, &good_point);
        }
    }
}

} // verus!
