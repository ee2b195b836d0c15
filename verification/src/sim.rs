//! The simulation core: grid occupancy map, entities, movement and clamping.
//!
//! The state owns a boolean occupancy map over a `max_x` by `max_y` grid,
//! stored as one contiguous buffer indexed by `x * max_y + y`, and the
//! collection of entities.  The map and the collection are two views of the
//! same set of occupied cells: `wf` states that correspondence and is
//! established by construction and preserved by every mutation.

use vstd::prelude::*;
use crate::rng::XorShift;
use crate::rng::spec_step;

verus! {

/// Display color of an entity: red and blue for the two initial corner
/// squares, green for entities placed by hand.
#[derive(Clone, Copy, PartialEq, Eq, Structural, Debug)]
pub enum Color {
    Red,
    Blue,
    Green,
}

/// An entity: a grid cell position and a color.
#[derive(Clone, Copy, PartialEq, Eq, Structural, Debug)]
pub struct Loc {
    pub x: usize,
    pub y: usize,
    pub color: Color,
}

/// Mathematical view of the whole simulation state.
#[verifier::ext_equal]
pub struct SimView {
    pub map: Seq<bool>,
    pub entities: Seq<Loc>,
    pub max_x: int,
    pub max_y: int,
    pub rng: XorShift,
}

/// Clamp `v` into the interval `[0, n - 1]`.
pub open spec fn clamp(v: int, n: int) -> int {
    if v < 0 {
        0
    } else if v > n - 1 {
        n - 1
    } else {
        v
    }
}

/// Horizontal component of direction number `r` (drawn in `[0, 8)`).
pub open spec fn dir_dx(r: int) -> int {
    if r == 0 {
        1
    } else if r == 1 {
        -1
    } else if r == 2 {
        0
    } else if r == 3 {
        0
    } else if r == 4 {
        1
    } else if r == 5 {
        -1
    } else if r == 6 {
        -1
    } else {
        1
    }
}

/// Vertical component of direction number `r` (drawn in `[0, 8)`).
pub open spec fn dir_dy(r: int) -> int {
    if r == 0 {
        0
    } else if r == 1 {
        0
    } else if r == 2 {
        1
    } else if r == 3 {
        -1
    } else if r == 4 {
        1
    } else if r == 5 {
        -1
    } else if r == 6 {
        1
    } else {
        -1
    }
}

/// The direction number one generator step yields: the fresh word modulo 8.
pub open spec fn draw(s: XorShift) -> int {
    spec_step(s).w as int % 8
}

impl SimView {
    /// Buffer index of cell `(x, y)`.
    pub open spec fn idx(self, x: int, y: int) -> int {
        x * self.max_y + y
    }

    /// Whether `(x, y)` lies on the grid.
    pub open spec fn in_bounds(self, x: int, y: int) -> bool {
        0 <= x < self.max_x && 0 <= y < self.max_y
    }

    /// Whether cell `(x, y)` is occupied according to the map.
    pub open spec fn occ(self, x: int, y: int) -> bool {
        self.map[self.idx(x, y)]
    }

    /// Whether entity `i` stands at cell `(x, y)`.
    pub open spec fn entity_at(self, i: int, x: int, y: int) -> bool {
        self.entities[i].x == x && self.entities[i].y == y
    }

    /// Well-formedness: positive grid, map sized to the grid, every entity in
    /// bounds, no two entities on one cell, and the map holds `true` exactly
    /// at the entity positions.
    pub open spec fn wf(self) -> bool {
        &&& 1 <= self.max_x <= usize::MAX
        &&& 1 <= self.max_y <= usize::MAX
        &&& self.map.len() == self.max_x * self.max_y
        &&& forall|i: int|
            0 <= i < self.entities.len() ==> self.in_bounds(
                (#[trigger] self.entities[i]).x as int,
                self.entities[i].y as int,
            )
        &&& forall|i: int, j: int|
            0 <= i < j < self.entities.len() ==> !((#[trigger] self.entities[i]).x
                == (#[trigger] self.entities[j]).x && self.entities[i].y == self.entities[j].y)
        &&& forall|i: int|
            0 <= i < self.entities.len() ==> self.occ(
                (#[trigger] self.entities[i]).x as int,
                self.entities[i].y as int,
            )
        &&& forall|x: int, y: int|
            self.in_bounds(x, y) && #[trigger] self.occ(x, y) ==> exists|i: int|
                0 <= i < self.entities.len() && self.entity_at(i, x, y)
    }
}

/// Cell indices are in range: `x * h + y` lies under `w * h` for an on-grid
/// cell.
pub proof fn lemma_idx_bounds(x: int, y: int, w: int, h: int)
    by (nonlinear_arith)
    requires
        0 <= x < w,
        0 <= y < h,
    ensures
        0 <= x * h + y < w * h,
{
}

/// Cell indexing is injective: two on-grid cells with the same buffer index
/// are the same cell.
pub proof fn lemma_idx_injective(x1: int, y1: int, x2: int, y2: int, h: int)
    by (nonlinear_arith)
    requires
        0 <= x1,
        0 <= x2,
        0 <= y1 < h,
        0 <= y2 < h,
        x1 * h + y1 == x2 * h + y2,
    ensures
        x1 == x2,
        y1 == y2,
{
}

/// Commit a move of entity `i` to cell `(nx, ny)`: clear the entity's old
/// cell, set the new one, and update the entity record.
pub open spec fn commit(s: SimView, i: int, nx: int, ny: int) -> SimView {
    let loc = s.entities[i];
    SimView {
        map: s.map.update(s.idx(loc.x as int, loc.y as int), false).update(s.idx(nx, ny), true),
        entities: s.entities.update(i, Loc { x: nx as usize, y: ny as usize, color: loc.color }),
        ..s
    }
}

/// One entity's turn within a tick.  A direction is drawn, the clamped
/// destination and the clamped opposite destination are computed, and the
/// move commits to the first of the two whose cell is free; a destination
/// equal to the entity's own current cell is always permitted (the map shows
/// the entity itself there, which is not a collision).  If neither is free
/// the entity stays and only the generator state has advanced.
pub open spec fn tick_one(s: SimView, i: int) -> SimView {
    let loc = s.entities[i];
    let d = draw(s.rng);
    let nx = clamp(loc.x + dir_dx(d), s.max_x);
    let ny = clamp(loc.y + dir_dy(d), s.max_y);
    let ox = clamp(nx + (loc.x - nx), s.max_x);
    let oy = clamp(ny + (loc.y - ny), s.max_y);
    let s2 = SimView { rng: spec_step(s.rng), ..s };
    if (nx == loc.x && ny == loc.y) || !s.occ(nx, ny) {
        commit(s2, i, nx, ny)
    } else if (ox == loc.x && oy == loc.y) || !s.occ(ox, oy) {
        commit(s2, i, ox, oy)
    } else {
        s2
    }
}

/// The state after the first `n` entities have taken their turn.
pub open spec fn tick_upto(s: SimView, n: int) -> SimView
    decreases n,
{
    if n <= 0 {
        s
    } else {
        tick_one(tick_upto(s, n - 1), n - 1)
    }
}

/// One whole tick: every entity takes its turn, in collection order, each
/// seeing the already-committed moves of the entities before it.
pub open spec fn spec_tick(s: SimView) -> SimView {
    tick_upto(s, s.entities.len() as int)
}

/// The cell toggle a click performs.  On an occupied cell the one entity
/// standing there is removed by a swap-remove and the cell is cleared; on a
/// free cell a green entity is added and the cell is set.
pub open spec fn spec_toggle(s: SimView, x: int, y: int) -> SimView {
    if s.occ(x, y) {
        let i = choose|i: int| 0 <= i < s.entities.len() && s.entity_at(i, x, y);
        SimView {
            map: s.map.update(s.idx(x, y), false),
            entities: s.entities.update(i, s.entities.last()).drop_last(),
            ..s
        }
    } else {
        SimView {
            map: s.map.update(s.idx(x, y), true),
            entities: s.entities.push(Loc { x: x as usize, y: y as usize, color: Color::Green }),
            ..s
        }
    }
}

/// Well-formedness does not depend on the generator state: two states that
/// agree on map, entities and bounds are well-formed together.
pub proof fn lemma_wf_rng_independent(a: SimView, b: SimView)
    requires
        a.wf(),
        b.map == a.map,
        b.entities == a.entities,
        b.max_x == a.max_x,
        b.max_y == a.max_y,
    ensures
        b.wf(),
{
    assert forall|i: int| 0 <= i < b.entities.len() implies b.in_bounds(
        (#[trigger] b.entities[i]).x as int,
        b.entities[i].y as int,
    ) by {
        assert(a.in_bounds(a.entities[i].x as int, a.entities[i].y as int));
    }
    assert forall|i: int| 0 <= i < b.entities.len() implies b.occ(
        (#[trigger] b.entities[i]).x as int,
        b.entities[i].y as int,
    ) by {
        assert(a.occ(a.entities[i].x as int, a.entities[i].y as int));
    }
    assert forall|x: int, y: int| b.in_bounds(x, y) && #[trigger] b.occ(x, y) implies exists|i: int|
        0 <= i < b.entities.len() && b.entity_at(i, x, y) by {
        assert(a.occ(x, y));
        let k = choose|k: int| 0 <= k < a.entities.len() && a.entity_at(k, x, y);
        assert(b.entity_at(k, x, y));
    }
}

/// Committing a move to a free (or own) in-bounds cell preserves
/// well-formedness and everything but the moved entity and its two cells.
pub proof fn lemma_commit_wf(s: SimView, i: int, nx: int, ny: int)
    requires
        s.wf(),
        0 <= i < s.entities.len(),
        s.in_bounds(nx, ny),
        (nx == s.entities[i].x && ny == s.entities[i].y) || !s.occ(nx, ny),
    ensures
        commit(s, i, nx, ny).wf(),
        commit(s, i, nx, ny).entities.len() == s.entities.len(),
        commit(s, i, nx, ny).map.len() == s.map.len(),
        commit(s, i, nx, ny).max_x == s.max_x,
        commit(s, i, nx, ny).max_y == s.max_y,
        commit(s, i, nx, ny).rng == s.rng,
{
    let loc = s.entities[i];
    let px = loc.x as int;
    let py = loc.y as int;
    let h = s.max_y;
    let t = commit(s, i, nx, ny);
    lemma_idx_bounds(px, py, s.max_x, h);
    lemma_idx_bounds(nx, ny, s.max_x, h);
    // No entity other than i stands at the destination.
    assert forall|j: int|
        0 <= j < s.entities.len() && j != i implies !(s.entities[j].x == nx && s.entities[j].y
        == ny) by {
        if s.entities[j].x == nx && s.entities[j].y == ny {
            if nx == px && ny == py {
                // two distinct entities on one cell, against wf
                assert(false);
            } else {
                assert(s.occ(nx, ny));
                assert(false);
            }
        }
    }
    // The map holds true exactly at the new entity positions.
    assert forall|x: int, y: int| t.in_bounds(x, y) && #[trigger] t.occ(x, y) implies exists|k: int|
        0 <= k < t.entities.len() && t.entity_at(k, x, y) by {
        lemma_idx_bounds(x, y, s.max_x, h);
        if x == nx && y == ny {
            assert(t.entity_at(i, x, y));
        } else {
            if s.idx(x, y) == s.idx(nx, ny) {
                lemma_idx_injective(x, y, nx, ny, h);
            }
            assert(s.idx(x, y) != s.idx(nx, ny));
            if x == px && y == py {
                // the vacated cell is clear unless it is also the destination
                assert(!t.occ(x, y));
            } else {
                if s.idx(x, y) == s.idx(px, py) {
                    lemma_idx_injective(x, y, px, py, h);
                }
                assert(s.occ(x, y));
                let k = choose|k: int| 0 <= k < s.entities.len() && s.entity_at(k, x, y);
                assert(k != i);
                assert(t.entity_at(k, x, y));
            }
        }
    }
    assert forall|k: int| 0 <= k < t.entities.len() implies t.occ(
        (#[trigger] t.entities[k]).x as int,
        t.entities[k].y as int,
    ) by {
        if k == i {
            assert(t.occ(nx, ny));
        } else {
            let qx = s.entities[k].x as int;
            let qy = s.entities[k].y as int;
            lemma_idx_bounds(qx, qy, s.max_x, h);
            if s.idx(qx, qy) == s.idx(nx, ny) {
                lemma_idx_injective(qx, qy, nx, ny, h);
            }
            if s.idx(qx, qy) == s.idx(px, py) {
                lemma_idx_injective(qx, qy, px, py, h);
            }
            assert(s.occ(qx, qy));
        }
    }
    assert(t.wf());
}

/// Toggling an on-grid cell preserves well-formedness.
pub proof fn lemma_toggle_wf(s: SimView, x: int, y: int)
    requires
        s.wf(),
        s.in_bounds(x, y),
    ensures
        spec_toggle(s, x, y).wf(),
        spec_toggle(s, x, y).max_x == s.max_x,
        spec_toggle(s, x, y).max_y == s.max_y,
        spec_toggle(s, x, y).rng == s.rng,
{
    let h = s.max_y;
    let t = spec_toggle(s, x, y);
    lemma_idx_bounds(x, y, s.max_x, h);
    if s.occ(x, y) {
        let i = choose|i: int| 0 <= i < s.entities.len() && s.entity_at(i, x, y);
        assert(0 <= i < s.entities.len() && s.entity_at(i, x, y));
        // the entity at the clicked cell is unique
        assert forall|j: int|
            0 <= j < s.entities.len() && s.entity_at(j, x, y) implies j == i by {
            if j != i {
                assert(false);
            }
        }
        assert forall|k: int| 0 <= k < t.entities.len() implies t.occ(
            (#[trigger] t.entities[k]).x as int,
            t.entities[k].y as int,
        ) by {
            let j: int = if k == i {
                s.entities.len() - 1
            } else {
                k
            };
            let qx = s.entities[j].x as int;
            let qy = s.entities[j].y as int;
            lemma_idx_bounds(qx, qy, s.max_x, h);
            if s.idx(qx, qy) == s.idx(x, y) {
                lemma_idx_injective(qx, qy, x, y, h);
            }
            assert(s.occ(qx, qy));
        }
        assert forall|a: int, b: int|
            t.in_bounds(a, b) && #[trigger] t.occ(a, b) implies exists|k: int|
            0 <= k < t.entities.len() && t.entity_at(k, a, b) by {
            lemma_idx_bounds(a, b, s.max_x, h);
            if s.idx(a, b) == s.idx(x, y) {
                lemma_idx_injective(a, b, x, y, h);
                assert(!t.occ(a, b));
            } else {
                assert(s.occ(a, b));
                let j = choose|j: int| 0 <= j < s.entities.len() && s.entity_at(j, a, b);
                assert(!(a == x && b == y));
                assert(j != i);
                if j == s.entities.len() - 1 {
                    assert(t.entity_at(i, a, b));
                } else {
                    assert(t.entity_at(j, a, b));
                }
            }
        }
        assert(t.wf());
    } else {
        // the free cell holds no entity, else the map would show it
        assert forall|j: int|
            0 <= j < s.entities.len() implies !(s.entity_at(j, x, y)) by {
            if s.entity_at(j, x, y) {
                assert(s.occ(x, y));
                assert(false);
            }
        }
        assert forall|k: int| 0 <= k < t.entities.len() implies t.occ(
            (#[trigger] t.entities[k]).x as int,
            t.entities[k].y as int,
        ) by {
            if k < s.entities.len() {
                let qx = s.entities[k].x as int;
                let qy = s.entities[k].y as int;
                lemma_idx_bounds(qx, qy, s.max_x, h);
                if s.idx(qx, qy) == s.idx(x, y) {
                    lemma_idx_injective(qx, qy, x, y, h);
                }
                assert(s.occ(qx, qy));
            } else {
                assert(t.occ(x, y));
            }
        }
        assert forall|a: int, b: int|
            t.in_bounds(a, b) && #[trigger] t.occ(a, b) implies exists|k: int|
            0 <= k < t.entities.len() && t.entity_at(k, a, b) by {
            lemma_idx_bounds(a, b, s.max_x, h);
            if s.idx(a, b) == s.idx(x, y) {
                lemma_idx_injective(a, b, x, y, h);
                assert(t.entity_at(s.entities.len() as int, a, b));
            } else {
                assert(s.occ(a, b));
                let j = choose|j: int| 0 <= j < s.entities.len() && s.entity_at(j, a, b);
                assert(t.entity_at(j, a, b));
            }
        }
        assert(t.wf());
    }
}

/// The simulation state: occupancy map, entities, grid bounds and the random
/// source.
pub struct GameState {
    pub map: Vec<bool>,
    pub entities: Vec<Loc>,
    pub max_x: usize,
    pub max_y: usize,
    pub rng: XorShift,
}

impl View for GameState {
    type V = SimView;

    open spec fn view(&self) -> SimView {
        SimView {
            map: self.map@,
            entities: self.entities@,
            max_x: self.max_x as int,
            max_y: self.max_y as int,
            rng: self.rng,
        }
    }
}

impl GameState {
    /// Buffer index of the on-grid cell `(x, y)`.
    fn cell_index(&self, x: usize, y: usize) -> (r: usize)
        requires
            self@.wf(),
            x < self.max_x,
            y < self.max_y,
        ensures
            r == self@.idx(x as int, y as int),
            r < self.map.len(),
    {
        let n = self.map.len();
        proof {
            lemma_idx_bounds(x as int, y as int, self.max_x as int, self.max_y as int);
            assert((x as int) * (self.max_y as int) + (y as int) < (n as int));
        }
        x * self.max_y + y
    }

    /// Read the occupancy map at the on-grid cell `(x, y)`.
    pub fn map_at(&self, x: usize, y: usize) -> (r: bool)
        requires
            self@.wf(),
            x < self.max_x,
            y < self.max_y,
        ensures
            r == self@.occ(x as int, y as int),
    {
        let i = self.cell_index(x, y);
        self.map[i]
    }

    /// Move `loc` by `(dx, dy)`, clamping each axis independently into the
    /// grid; hard walls, no wraparound.  The color is preserved.
    pub fn mov(&self, loc: &Loc, dx: isize, dy: isize) -> (r: Loc)
        requires
            1 <= self.max_x,
            1 <= self.max_y,
        ensures
            r.x as int == clamp(loc.x as int + dx as int, self@.max_x),
            r.y as int == clamp(loc.y as int + dy as int, self@.max_y),
            r.color == loc.color,
    {
        let vx: i128 = loc.x as i128 + dx as i128;
        let hix: i128 = self.max_x as i128 - 1;
        let cx: i128 = if vx < 0 {
            0
        } else if vx > hix {
            hix
        } else {
            vx
        };
        let vy: i128 = loc.y as i128 + dy as i128;
        let hiy: i128 = self.max_y as i128 - 1;
        let cy: i128 = if vy < 0 {
            0
        } else if vy > hiy {
            hiy
        } else {
            vy
        };
        Loc { x: cx as usize, y: cy as usize, color: loc.color }
    }

    /// Draw one of the eight compass directions uniformly from the random
    /// source and apply `mov`.  Only the generator state of `self` changes.
    pub fn random_mov(&mut self, loc: &Loc) -> (r: Loc)
        requires
            1 <= old(self).max_x,
            1 <= old(self).max_y,
        ensures
            final(self)@.map == old(self)@.map,
            final(self)@.entities == old(self)@.entities,
            final(self).max_x == old(self).max_x,
            final(self).max_y == old(self).max_y,
            final(self).rng == spec_step(old(self).rng),
            r.x as int == clamp(loc.x as int + dir_dx(draw(old(self).rng)), old(self)@.max_x),
            r.y as int == clamp(loc.y as int + dir_dy(draw(old(self).rng)), old(self)@.max_y),
            r.color == loc.color,
    {
        let v = self.rng.step();
        let d = v % 8;
        match d {
            0 => self.mov(loc, 1, 0),
            1 => self.mov(loc, -1, 0),
            2 => self.mov(loc, 0, 1),
            3 => self.mov(loc, 0, -1),
            4 => self.mov(loc, 1, 1),
            5 => self.mov(loc, -1, -1),
            6 => self.mov(loc, -1, 1),
            _ => self.mov(loc, 1, -1),
        }
    }

    /// Move entity `i` to the free (or own) in-bounds cell `dest`, keeping
    /// map and entity record in lockstep.
    fn commit_move(&mut self, i: usize, dest: Loc)
        requires
            old(self)@.wf(),
            i < old(self).entities.len(),
            old(self)@.in_bounds(dest.x as int, dest.y as int),
            dest.color == old(self)@.entities[i as int].color,
            (dest.x == old(self)@.entities[i as int].x && dest.y == old(self)@.entities[i as int].y)
                || !old(self)@.occ(dest.x as int, dest.y as int),
        ensures
            final(self)@ == commit(old(self)@, i as int, dest.x as int, dest.y as int),
            final(self)@.wf(),
    {
        let loc = self.entities[i];
        let pi = self.cell_index(loc.x, loc.y);
        let qi = self.cell_index(dest.x, dest.y);
        self.map[pi] = false;
        self.map[qi] = true;
        self.entities[i] = dest;
        proof {
            lemma_commit_wf(old(self)@, i as int, dest.x as int, dest.y as int);
            assert(self@ =~= commit(old(self)@, i as int, dest.x as int, dest.y as int));
        }
    }

    /// Index of the one entity standing at the occupied cell `(x, y)`.
    fn find_entity_index(&self, x: usize, y: usize) -> (r: usize)
        requires
            self@.wf(),
            x < self.max_x,
            y < self.max_y,
            self@.occ(x as int, y as int),
        ensures
            r < self.entities.len(),
            self@.entity_at(r as int, x as int, y as int),
    {
        let n = self.entities.len();
        let mut i: usize = 0;
        while i < n
            invariant
                i <= n,
                n == self.entities.len(),
                self@.wf(),
                self@.occ(x as int, y as int),
                forall|k: int| 0 <= k < i ==> !self@.entity_at(k, x as int, y as int),
            decreases n - i,
        {
            if self.entities[i].x == x && self.entities[i].y == y {
                return i;
            }
            i = i + 1;
        }
        // unreachable: an occupied cell holds an entity
        proof {
            let k = choose|k: int|
                0 <= k < self@.entities.len() && self@.entity_at(k, x as int, y as int);
            assert(false);
        }
        0
    }

    /// Toggle the on-grid cell `(x, y)`: remove the entity standing there, or
    /// add a green one if the cell is free.
    pub fn toggle(&mut self, x: usize, y: usize)
        requires
            old(self)@.wf(),
            x < old(self).max_x,
            y < old(self).max_y,
        ensures
            final(self)@ == spec_toggle(old(self)@, x as int, y as int),
            final(self)@.wf(),
            final(self).max_x == old(self).max_x,
            final(self).max_y == old(self).max_y,
    {
        let ci = self.cell_index(x, y);
        if self.map[ci] {
            let i = self.find_entity_index(x, y);
            proof {
                let j = choose|j: int|
                    0 <= j < old(self)@.entities.len() && old(self)@.entity_at(
                        j,
                        x as int,
                        y as int,
                    );
                assert(j == i as int);
            }
            self.map[ci] = false;
            self.entities.swap_remove(i);
        } else {
            self.map[ci] = true;
            self.entities.push(Loc { x, y, color: Color::Green });
        }
        proof {
            lemma_toggle_wf(old(self)@, x as int, y as int);
            assert(self@ =~= spec_toggle(old(self)@, x as int, y as int));
        }
    }

    /// Advance the simulation one tick: every entity, in collection order,
    /// takes the turn that `tick_one` describes, each seeing the committed
    /// moves of the entities before it.
    pub fn update(&mut self)
        requires
            old(self)@.wf(),
        ensures
            final(self)@ == spec_tick(old(self)@),
            final(self)@.wf(),
            final(self).max_x == old(self).max_x,
            final(self).max_y == old(self).max_y,
            final(self).entities.len() == old(self).entities.len(),
    {
        let ghost s0 = self@;
        let n = self.entities.len();
        let mut i: usize = 0;
        while i < n
            invariant
                self@ == tick_upto(s0, i as int),
                self@.wf(),
                i <= n,
                n == self.entities.len(),
                n == s0.entities.len(),
                self.max_x == old(self).max_x,
                self.max_y == old(self).max_y,
            decreases n - i,
        {
            let ghost cur = self@;
            let loc = self.entities[i];
            let new_loc = self.random_mov(&loc);
            let ghost s2 = self@;
            proof {
                lemma_wf_rng_independent(cur, s2);
            }
            let odx: i128 = loc.x as i128 - new_loc.x as i128;
            let ody: i128 = loc.y as i128 - new_loc.y as i128;
            assert(-1 <= odx <= 1 && -1 <= ody <= 1);
            let opposite_new_loc = self.mov(&new_loc, odx as isize, ody as isize);
            let same_new = new_loc.x == loc.x && new_loc.y == loc.y;
            let new_free = same_new || !self.map_at(new_loc.x, new_loc.y);
            let same_opp = opposite_new_loc.x == loc.x && opposite_new_loc.y == loc.y;
            let oppos_free = same_opp || !self.map_at(opposite_new_loc.x, opposite_new_loc.y);
            if new_free {
                self.commit_move(i, new_loc);
            } else if oppos_free {
                self.commit_move(i, opposite_new_loc);
            }
            proof {
                assert(self@ == tick_one(cur, i as int));
                assert(tick_upto(s0, i as int + 1) == tick_one(tick_upto(s0, i as int), i as int));
            }
            i = i + 1;
        }
    }
}

} // verus!
