//! The guarantees the simulation keeps, stated and proved over the
//! mathematical view: occupancy consistency, bounds, tick determinism,
//! no double occupancy after a tick, and the toggle round trip.

use vstd::prelude::*;
use crate::sim::SimView;
use crate::sim::Loc;
use crate::sim::Color;
use crate::sim::spec_tick;
use crate::sim::spec_toggle;
use crate::sim::tick_one;
use crate::sim::tick_upto;
use crate::sim::clamp;
use crate::sim::draw;
use crate::sim::dir_dx;
use crate::sim::dir_dy;
use crate::sim::lemma_commit_wf;
use crate::sim::lemma_idx_bounds;
use crate::sim::lemma_wf_rng_independent;
use crate::rng::spec_step;

verus! {

/// The cell positions of the entities, in collection order.
pub open spec fn positions(s: SimView) -> Seq<(int, int)> {
    s.entities.map_values(|e: Loc| (e.x as int, e.y as int))
}

/// The set of cells the occupancy map marks `true`.
pub open spec fn occupied_cells(s: SimView) -> Set<(int, int)> {
    Set::new(|p: (int, int)| s.in_bounds(p.0, p.1) && s.occ(p.0, p.1))
}

/// Occupancy consistency: in a well-formed state the cells the map marks
/// `true` are exactly the entity positions, and their number equals the
/// entity count — each marked cell holds exactly one entity.
pub proof fn lemma_occupancy_count(s: SimView)
    requires
        s.wf(),
    ensures
        occupied_cells(s) == positions(s).to_set(),
        occupied_cells(s).finite(),
        occupied_cells(s).len() == s.entities.len(),
{
    broadcast use vstd::seq_lib::seq_to_set_is_finite;

    let ps = positions(s);
    assert forall|p: (int, int)| occupied_cells(s).contains(p) implies ps.to_set().contains(
        p,
    ) by {
        let i = choose|i: int| 0 <= i < s.entities.len() && s.entity_at(i, p.0, p.1);
        assert(ps[i] == p);
        assert(ps.contains(p));
    }
    assert forall|p: (int, int)| ps.to_set().contains(p) implies occupied_cells(s).contains(
        p,
    ) by {
        let i = choose|i: int| 0 <= i < ps.len() && ps[i] == p;
        assert(s.in_bounds(s.entities[i].x as int, s.entities[i].y as int));
        assert(s.occ(s.entities[i].x as int, s.entities[i].y as int));
    }
    assert(occupied_cells(s) =~= ps.to_set());
    assert(ps.no_duplicates()) by {
        assert forall|i: int, j: int|
            0 <= i < ps.len() && 0 <= j < ps.len() && i != j implies ps[i] != ps[j] by {
            if ps[i] == ps[j] {
                assert(s.entities[i].x == s.entities[j].x && s.entities[i].y
                    == s.entities[j].y);
                assert(false);
            }
        }
    }
    ps.unique_seq_to_set();
}

/// One entity's turn preserves well-formedness, the entity count and the
/// grid; in particular no two entities share a cell afterwards.
pub proof fn lemma_tick_one_wf(s: SimView, i: int)
    requires
        s.wf(),
        0 <= i < s.entities.len(),
    ensures
        tick_one(s, i).wf(),
        tick_one(s, i).entities.len() == s.entities.len(),
        tick_one(s, i).max_x == s.max_x,
        tick_one(s, i).max_y == s.max_y,
{
    let loc = s.entities[i];
    let d = draw(s.rng);
    let nx = clamp(loc.x + dir_dx(d), s.max_x);
    let ny = clamp(loc.y + dir_dy(d), s.max_y);
    let ox = clamp(nx + (loc.x - nx), s.max_x);
    let oy = clamp(ny + (loc.y - ny), s.max_y);
    let s2 = SimView { rng: spec_step(s.rng), ..s };
    lemma_wf_rng_independent(s, s2);
    if (nx == loc.x && ny == loc.y) || !s.occ(nx, ny) {
        lemma_commit_wf(s2, i, nx, ny);
    } else if (ox == loc.x && oy == loc.y) || !s.occ(ox, oy) {
        lemma_commit_wf(s2, i, ox, oy);
    }
}

/// The turns of the first `n` entities preserve well-formedness, the entity
/// count and the grid.
pub proof fn lemma_tick_upto_wf(s: SimView, n: int)
    requires
        s.wf(),
        0 <= n <= s.entities.len(),
    ensures
        tick_upto(s, n).wf(),
        tick_upto(s, n).entities.len() == s.entities.len(),
        tick_upto(s, n).max_x == s.max_x,
        tick_upto(s, n).max_y == s.max_y,
    decreases n,
{
    if n > 0 {
        lemma_tick_upto_wf(s, n - 1);
        lemma_tick_one_wf(tick_upto(s, n - 1), n - 1);
    }
}

/// No double occupancy under bounce: a whole tick keeps the state
/// well-formed — afterwards no two entities share a cell, every entity is on
/// the grid, and map and entities still agree.
pub proof fn lemma_tick_preserves_wf(s: SimView)
    requires
        s.wf(),
    ensures
        spec_tick(s).wf(),
        spec_tick(s).entities.len() == s.entities.len(),
        forall|i: int, j: int|
            0 <= i < j < spec_tick(s).entities.len() ==> !((#[trigger] spec_tick(s).entities[i]).x
                == (#[trigger] spec_tick(s).entities[j]).x && spec_tick(s).entities[i].y
                == spec_tick(s).entities[j].y),
{
    lemma_tick_upto_wf(s, s.entities.len() as int);
}

/// The state after `n` whole ticks.
pub open spec fn run_ticks(s: SimView, n: nat) -> SimView
    decreases n,
{
    if n == 0 {
        s
    } else {
        spec_tick(run_ticks(s, (n - 1) as nat))
    }
}

/// A run stays well-formed for any number of ticks.
pub proof fn lemma_run_wf(s: SimView, n: nat)
    requires
        s.wf(),
    ensures
        run_ticks(s, n).wf(),
    decreases n,
{
    if n > 0 {
        lemma_run_wf(s, (n - 1) as nat);
        lemma_tick_upto_wf(run_ticks(s, (n - 1) as nat), run_ticks(s, (n - 1) as nat).entities.len() as int);
    }
}

/// Determinism: construction and ticking are functions of the configuration
/// alone — `new` yields `spec_init` of its arguments and `update` yields
/// `spec_tick` of the prior state — so two simulations built alike and
/// advanced by the same number of ticks are identical.
pub proof fn lemma_run_deterministic(a: SimView, b: SimView, n: nat)
    requires
        a == b,
    ensures
        run_ticks(a, n) == run_ticks(b, n),
{
}

/// Toggle round trip: clicking a free cell adds one green entity there and
/// sets the cell's occupancy; clicking the same cell again removes exactly
/// that entity and returns the state — map and entities — to what it was.
pub proof fn lemma_toggle_round_trip(s: SimView, x: int, y: int)
    requires
        s.wf(),
        s.in_bounds(x, y),
        !s.occ(x, y),
    ensures
        spec_toggle(s, x, y).entities == s.entities.push(
            Loc { x: x as usize, y: y as usize, color: Color::Green },
        ),
        spec_toggle(s, x, y).occ(x, y),
        spec_toggle(spec_toggle(s, x, y), x, y) == s,
{
    let s1 = spec_toggle(s, x, y);
    let n = s.entities.len() as int;
    lemma_idx_bounds(x, y, s.max_x, s.max_y);
    assert(s1.occ(x, y));
    // in the second click, the chosen entity is the green one just added
    assert(s1.entity_at(n, x, y));
    let i = choose|i: int| 0 <= i < s1.entities.len() && s1.entity_at(i, x, y);
    assert(0 <= i < s1.entities.len() && s1.entity_at(i, x, y));
    if i < n {
        assert(s.entity_at(i, x, y));
        assert(s.occ(x, y));
        assert(false);
    }
    let s2 = spec_toggle(s1, x, y);
    assert(s2.entities =~= s.entities) by {
        assert(s1.entities.update(n, s1.entities.last()) =~= s1.entities);
    }
    assert(s2.map =~= s.map);
    assert(s2 =~= s);
}

} // verus!
