//! A run of the simulation: the invariant that ties the agents to the grid,
//! the laws that every tick keeps, and the sequential strategy.

use crate::domain::person::best_move;
use crate::domain::person::Person;
use crate::domain::terrain::lemma_occupied_update;
use crate::domain::terrain::lemma_offset_injective;
use crate::domain::terrain::Terrain;
use vstd::prelude::*;

verus! {

/// Number of agents of `ps` that have escaped.
pub open spec fn escaped_count(ps: Seq<Person>) -> nat
    decreases ps.len(),
{
    if ps.len() == 0 {
        0
    } else {
        escaped_count(ps.drop_last()) + if ps.last().has_escaped {
            1nat
        } else {
            0nat
        }
    }
}

/// Agent `p` stands on a cell of `t` that is no exit and holds its id.
pub open spec fn agent_on(t: Terrain, p: Person) -> bool {
    &&& t.in_bounds(p.position)
    &&& !t.is_exit(p.position)
    &&& t.cell(p.position) == p.id as isize
}

/// The state of a run: the grid `t` and the agents `ps`. Ids are positive
/// and distinct; each agent still in play holds its own cell, which is no
/// exit; the exit counter counts the escaped agents; and the occupied cells
/// are as many as the agents still in play.
pub open spec fn sim_inv(t: Terrain, ps: Seq<Person>) -> bool {
    &&& t.wf()
    &&& forall|i: int| 0 <= i < ps.len() ==> 0 < #[trigger] ps[i].id <= isize::MAX
    &&& forall|i: int, j: int|
        0 <= i < ps.len() && 0 <= j < ps.len() && i != j ==> #[trigger] ps[i].id != #[trigger] ps[j].id
    &&& forall|i: int| 0 <= i < ps.len() && !(#[trigger] ps[i]).has_escaped ==> agent_on(t, ps[i])
    &&& t.exited() == escaped_count(ps)
    &&& t.occupied() + t.exited() == ps.len()
}

/// The grid `t2` and agents `ps2` are those of `t` and `ps`, unchanged.
pub open spec fn same_state(t: Terrain, ps: Seq<Person>, t2: Terrain, ps2: Seq<Person>) -> bool {
    &&& t2.same_shape(&t)
    &&& t2.cells() == t.cells()
    &&& t2.exited() == t.exited()
    &&& ps2 == ps
}

/// The turn of agent `k` in a round: an escaped agent is skipped, any other
/// takes one tick.
pub open spec fn agent_turn(t: Terrain, ps: Seq<Person>, k: int, t2: Terrain, ps2: Seq<Person>) -> bool {
    if ps[k].has_escaped {
        same_state(t, ps, t2, ps2)
    } else {
        &&& ps2.len() == ps.len()
        &&& ps2 == ps.update(k, ps2[k])
        &&& ps[k].ticked(t, ps2[k], t2)
    }
}

/// `trace` lists the states of one round of the sequential strategy from
/// `(t, ps)`: the start, then the state after the turn of each agent, in
/// list order.
pub open spec fn is_round(t: Terrain, ps: Seq<Person>, trace: Seq<(Terrain, Seq<Person>)>) -> bool {
    &&& trace.len() == ps.len() + 1
    &&& trace[0] == (t, ps)
    &&& forall|k: int|
        0 <= k < ps.len() ==> agent_turn(
            (#[trigger] trace[k]).0,
            trace[k].1,
            k,
            trace[k + 1].0,
            trace[k + 1].1,
        )
}

/// One round of the sequential strategy leads from `(t, ps)` to `(t2, ps2)`.
pub open spec fn one_round(t: Terrain, ps: Seq<Person>, t2: Terrain, ps2: Seq<Person>) -> bool {
    exists|trace: Seq<(Terrain, Seq<Person>)>|
        #[trigger] is_round(t, ps, trace) && trace.last() == (t2, ps2)
}

/// `states` lists the states of a run of the sequential strategy from
/// `(t, ps)`, one after each round.
pub open spec fn is_run(t: Terrain, ps: Seq<Person>, states: Seq<(Terrain, Seq<Person>)>) -> bool {
    &&& states.len() >= 1
    &&& states[0] == (t, ps)
    &&& forall|k: int|
        0 <= k < states.len() - 1 ==> one_round(
            (#[trigger] states[k]).0,
            states[k].1,
            states[k + 1].0,
            states[k + 1].1,
        )
}

/// `r` rounds of the sequential strategy lead from `(t, ps)` to `(t2, ps2)`.
pub open spec fn after_rounds(t: Terrain, ps: Seq<Person>, r: int, t2: Terrain, ps2: Seq<Person>) -> bool {
    exists|states: Seq<(Terrain, Seq<Person>)>|
        #[trigger] is_run(t, ps, states) && states.len() == r + 1 && states.last() == (t2, ps2)
}

/// Replacing one agent changes the escaped count by what that agent gains
/// or loses.
pub proof fn lemma_escaped_update(ps: Seq<Person>, i: int, p: Person)
    requires
        0 <= i < ps.len(),
    ensures
        escaped_count(ps.update(i, p)) as int == escaped_count(ps) as int - (if ps[i].has_escaped {
            1int
        } else {
            0int
        }) + (if p.has_escaped {
            1int
        } else {
            0int
        }),
    decreases ps.len(),
{
    let q = ps.update(i, p);
    if i == ps.len() - 1 {
        assert(q.drop_last() =~= ps.drop_last());
    } else {
        assert(q.drop_last() =~= ps.drop_last().update(i, p));
        lemma_escaped_update(ps.drop_last(), i, p);
    }
}

/// Never more agents escaped than agents; as many only when all escaped.
pub proof fn lemma_escaped_bound(ps: Seq<Person>)
    ensures
        escaped_count(ps) <= ps.len(),
        escaped_count(ps) == ps.len() ==> forall|i: int|
            0 <= i < ps.len() ==> (#[trigger] ps[i]).has_escaped,
    decreases ps.len(),
{
    if ps.len() > 0 {
        let prev = ps.drop_last();
        lemma_escaped_bound(prev);
        if escaped_count(ps) == ps.len() {
            assert forall|i: int| 0 <= i < ps.len() implies (#[trigger] ps[i]).has_escaped by {
                if i < ps.len() - 1 {
                    assert(prev[i] == ps[i]);
                }
            }
        }
    }
}

/// Agents in play stand on distinct cells.
proof fn lemma_distinct_cells(t: Terrain, ps: Seq<Person>, i: int, j: int)
    requires
        sim_inv(t, ps),
        0 <= i < ps.len(),
        0 <= j < ps.len(),
        i != j,
        !ps[i].has_escaped,
        !ps[j].has_escaped,
    ensures
        ps[i].position != ps[j].position,
        t.offset(ps[i].position) != t.offset(ps[j].position),
{
    assert(agent_on(t, ps[i]));
    assert(agent_on(t, ps[j]));
    assert(ps[i].id != ps[j].id);
    if t.offset(ps[i].position) == t.offset(ps[j].position) {
        lemma_offset_injective(t.width(), ps[i].position, ps[j].position);
    }
}

/// Occupancy: in every state of a run, no two agents still in play share a
/// cell, and the occupied cells are as many as the agents that have not
/// escaped.
pub proof fn lemma_occupancy(t: Terrain, ps: Seq<Person>)
    requires
        sim_inv(t, ps),
    ensures
        forall|i: int, j: int|
            0 <= i < ps.len() && 0 <= j < ps.len() && i != j && !ps[i].has_escaped
                && !ps[j].has_escaped ==> #[trigger] ps[i].position != #[trigger] ps[j].position,
        t.occupied() == ps.len() - t.exited(),
{
    assert forall|i: int, j: int|
        0 <= i < ps.len() && 0 <= j < ps.len() && i != j && !ps[i].has_escaped
            && !ps[j].has_escaped implies #[trigger] ps[i].position != #[trigger] ps[j].position by {
        lemma_distinct_cells(t, ps, i, j);
    }
}

/// Exits are bounded: the exit counter never exceeds the number of agents.
pub proof fn lemma_exits_bounded(t: Terrain, ps: Seq<Person>)
    requires
        sim_inv(t, ps),
    ensures
        t.exited() <= ps.len(),
{
    lemma_escaped_bound(ps);
}

/// One tick of any agent of the run, in any order of agents, keeps the
/// invariant and never lowers the exit counter: every state that a
/// schedule of ticks reaches, sequential or interleaved, is a state of a run.
pub proof fn lemma_tick_preserves(t: Terrain, ps: Seq<Person>, i: int, p2: Person, t2: Terrain)
    requires
        sim_inv(t, ps),
        0 <= i < ps.len(),
        ps[i].ticked(t, p2, t2),
    ensures
        sim_inv(t2, ps.update(i, p2)),
        t.exited() <= t2.exited() <= ps.len(),
        t2.exited() <= t.exited() + 1,
{
    let p = ps[i];
    let qs = ps.update(i, p2);
    let np = best_move(p.position, t.free_neighbors(p.position));
    if p.has_escaped || np == p.position {
        assert(qs =~= ps);
        assert(t2.occupied() == t.occupied());
        assert forall|k: int| 0 <= k < qs.len() && !(#[trigger] qs[k]).has_escaped implies agent_on(
            t2,
            qs[k],
        ) by {
            assert(agent_on(t, ps[k]));
        }
    } else {
        assert(agent_on(t, p));
        t.lemma_in_bounds_offset(p.position);
        t.lemma_in_bounds_offset(np);
        let o = t.offset(p.position);
        let on = t.offset(np);
        if o == on {
            lemma_offset_injective(t.width(), p.position, np);
        }
        lemma_escaped_update(ps, i, p2);
        assert forall|k: int| 0 <= k < qs.len() && k != i && !(#[trigger] qs[k]).has_escaped implies agent_on(
            t2,
            qs[k],
        ) by {
            lemma_distinct_cells(t, ps, i, k);
            let ok = t.offset(ps[k].position);
            assert(agent_on(t, ps[k]));
            t.lemma_in_bounds_offset(ps[k].position);
            if ok == on {
                lemma_offset_injective(t.width(), ps[k].position, np);
            }
            assert(t2.cells()[ok] == t.cells()[ok]);
        }
        if t.is_exit(np) {
            lemma_occupied_update(t.cells(), o, 0);
        } else {
            lemma_occupied_update(t.cells(), on, t.cell(p.position));
            let mid = t.cells().update(on, t.cell(p.position));
            lemma_occupied_update(mid, o, 0);
            assert(t2.cell(np) == p.id as isize);
        }
        assert forall|a: int, b: int|
            0 <= a < qs.len() && 0 <= b < qs.len() && a != b implies #[trigger] qs[a].id
            != #[trigger] qs[b].id by {
            assert(ps[a].id != ps[b].id);
        }
    }
    lemma_escaped_bound(qs);
}

/// Agent `p` with no free cell around it stays where it is: its pick is its
/// own cell, and a tick then changes neither it nor the grid.
pub proof fn lemma_blocked_agent_stays(t: Terrain, p: Person, p2: Person, t2: Terrain)
    requires
        t.free_neighbors(p.position).len() == 0,
        p.ticked(t, p2, t2),
    ensures
        best_move(p.position, t.free_neighbors(p.position)) == p.position,
        p2 == p,
        t2.cells() == t.cells(),
        t2.exited() == t.exited(),
{
}

/// An escaped agent is inert: a tick of it changes neither it, nor any cell,
/// nor the exit counter.
pub proof fn lemma_escaped_agent_inert(t: Terrain, p: Person, p2: Person, t2: Terrain)
    requires
        p.has_escaped,
        p.ticked(t, p2, t2),
    ensures
        p2 == p,
        t2.cells() == t.cells(),
        t2.exited() == t.exited(),
{
}

/// A finished run: once the exit counter reaches the number of agents, all
/// agents have escaped and no cell is occupied. The ids that escaped are then
/// all ids, whatever order the ticks came in.
pub proof fn lemma_finished_run(t: Terrain, ps: Seq<Person>)
    requires
        sim_inv(t, ps),
        t.exited() == ps.len(),
    ensures
        forall|i: int| 0 <= i < ps.len() ==> (#[trigger] ps[i]).has_escaped,
        t.occupied() == 0,
{
    lemma_escaped_bound(ps);
}

/// Lets agent `i` take one tick.
pub fn step_agent(terrain: &mut Terrain, persons: &mut Vec<Person>, i: usize)
    requires
        sim_inv(*old(terrain), old(persons)@),
        i < old(persons)@.len(),
    ensures
        final(persons)@.len() == old(persons)@.len(),
        final(persons)@ == old(persons)@.update(i as int, final(persons)@[i as int]),
        old(persons)@[i as int].ticked(*old(terrain), final(persons)@[i as int], *final(terrain)),
        sim_inv(*final(terrain), final(persons)@),
        old(terrain).exited() <= final(terrain).exited(),
{
    let n = persons.len();
    let mut p = persons[i];
    proof {
        let ps = old(persons)@;
        assert(ps.len() == n);
        lemma_escaped_update(ps, i as int, Person { has_escaped: true, ..ps[i as int] });
        lemma_escaped_bound(ps.update(i as int, Person { has_escaped: true, ..ps[i as int] }));
        if !p.has_escaped {
            assert(agent_on(*terrain, ps[i as int]));
        }
    }
    let ghost t0 = *terrain;
    p.look_and_move(terrain);
    persons.set(i, p);
    proof {
        lemma_tick_preserves(t0, old(persons)@, i as int, p, *terrain);
    }
}

/// One round of the sequential strategy: every agent still in play, in list
/// order, takes one tick.
pub fn sequential_round(terrain: &mut Terrain, persons: &mut Vec<Person>)
    requires
        sim_inv(*old(terrain), old(persons)@),
    ensures
        final(persons)@.len() == old(persons)@.len(),
        one_round(*old(terrain), old(persons)@, *final(terrain), final(persons)@),
        sim_inv(*final(terrain), final(persons)@),
        old(terrain).exited() <= final(terrain).exited(),
{
    let n = persons.len();
    let ghost mut trace: Seq<(Terrain, Seq<Person>)> = seq![(*terrain, persons@)];
    let mut i: usize = 0;
    while i < n
        invariant
            n == persons@.len(),
            n == old(persons)@.len(),
            i <= n,
            trace.len() == i + 1,
            trace[0] == (*old(terrain), old(persons)@),
            trace.last() == (*terrain, persons@),
            forall|k: int|
                0 <= k < i ==> agent_turn(
                    (#[trigger] trace[k]).0,
                    trace[k].1,
                    k,
                    trace[k + 1].0,
                    trace[k + 1].1,
                ),
            sim_inv(*terrain, persons@),
            old(terrain).exited() <= terrain.exited(),
        decreases n - i,
    {
        let ghost t1 = *terrain;
        let ghost ps1 = persons@;
        if !persons[i].has_escaped {
            step_agent(terrain, persons, i);
        }
        proof {
            assert(agent_turn(t1, ps1, i as int, *terrain, persons@));
            let prev = trace;
            trace = trace.push((*terrain, persons@));
            assert forall|k: int| 0 <= k < i + 1 implies agent_turn(
                (#[trigger] trace[k]).0,
                trace[k].1,
                k,
                trace[k + 1].0,
                trace[k + 1].1,
            ) by {
                if k < i {
                    assert(trace[k] == prev[k]);
                    assert(trace[k + 1] == prev[k + 1]);
                }
            }
        }
        i = i + 1;
    }
    proof {
        assert(is_round(*old(terrain), old(persons)@, trace));
    }
}

/// The sequential strategy: rounds of ticks until every agent has escaped,
/// for at most `max_rounds` rounds. Returns whether every agent escaped.
pub fn run_sequential(terrain: &mut Terrain, persons: &mut Vec<Person>, max_rounds: usize) -> (done: bool)
    requires
        sim_inv(*old(terrain), old(persons)@),
    ensures
        final(persons)@.len() == old(persons)@.len(),
        sim_inv(*final(terrain), final(persons)@),
        old(terrain).exited() <= final(terrain).exited(),
        done == (final(terrain).exited() == final(persons)@.len()),
        done ==> forall|i: int| 0 <= i < final(persons)@.len() ==> (#[trigger] final(persons)@[i]).has_escaped,
        done ==> final(terrain).occupied() == 0,
        exists|r: int|
            0 <= r <= max_rounds && #[trigger] after_rounds(
                *old(terrain),
                old(persons)@,
                r,
                *final(terrain),
                final(persons)@,
            ) && (r < max_rounds ==> done),
{
    let mut rounds: usize = 0;
    let ghost mut states: Seq<(Terrain, Seq<Person>)> = seq![(*terrain, persons@)];
    while rounds < max_rounds && terrain.get_exited_cnt() < persons.len()
        invariant
            persons@.len() == old(persons)@.len(),
            sim_inv(*terrain, persons@),
            old(terrain).exited() <= terrain.exited(),
            rounds <= max_rounds,
            states.len() == rounds + 1,
            states[0] == (*old(terrain), old(persons)@),
            states.last() == (*terrain, persons@),
            forall|k: int|
                0 <= k < rounds ==> one_round(
                    (#[trigger] states[k]).0,
                    states[k].1,
                    states[k + 1].0,
                    states[k + 1].1,
                ),
        decreases max_rounds - rounds,
    {
        let ghost t1 = *terrain;
        let ghost ps1 = persons@;
        sequential_round(terrain, persons);
        proof {
            let prev = states;
            states = states.push((*terrain, persons@));
            assert forall|k: int| 0 <= k < rounds + 1 implies one_round(
                (#[trigger] states[k]).0,
                states[k].1,
                states[k + 1].0,
                states[k + 1].1,
            ) by {
                if k < rounds {
                    assert(states[k] == prev[k]);
                    assert(states[k + 1] == prev[k + 1]);
                } else {
                    assert(states[k] == (t1, ps1));
                }
            }
        }
        rounds = rounds + 1;
    }
    proof {
        assert(is_run(*old(terrain), old(persons)@, states));
        assert(after_rounds(*old(terrain), old(persons)@, rounds as int, *terrain, persons@));
    }
    let done = terrain.get_exited_cnt() == persons.len();
    if done {
        proof {
            lemma_finished_run(*terrain, persons@);
        }
    }
    done
}

} // verus!
