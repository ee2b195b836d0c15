//! Construction of a fresh simulation: two filled squares of entities, red
//! and blue, in opposite corners of an otherwise empty grid.
//!
//! The cells of the red square are visited in x-major order; for each cell
//! one red entity is placed there and one blue entity at the point-reflected
//! cell.  Pair number `t` therefore handles the red cell
//! `(t / side, t % side)`.

use vstd::prelude::*;
use crate::rng::seeded;
use crate::sim::Color;
use crate::sim::GameState;
use crate::sim::Loc;
use crate::sim::SimView;

verus! {

/// Whether `(x, y)` lies in the corner square of the given side length.
pub open spec fn in_square(x: int, y: int, side: int) -> bool {
    0 <= x < side && 0 <= y < side
}

/// The red entity of cell `(x, y)`.
pub open spec fn red_at(x: int, y: int) -> Loc {
    Loc { x: x as usize, y: y as usize, color: Color::Red }
}

/// The blue entity of cell `(x, y)`.
pub open spec fn blue_at(x: int, y: int) -> Loc {
    Loc { x: x as usize, y: y as usize, color: Color::Blue }
}

/// The entity collection after the first `k` red-square cells have been
/// handled: each contributes its red entity and then the point-reflected
/// blue one.
pub open spec fn init_entities(side: int, w: int, h: int, k: int) -> Seq<Loc>
    decreases k,
{
    if k <= 0 {
        Seq::empty()
    } else {
        let t = k - 1;
        init_entities(side, w, h, t).push(red_at(t / side, t % side)).push(
            blue_at(w - 1 - t / side, h - 1 - t % side),
        )
    }
}

/// The freshly constructed simulation: both corner squares placed, the map
/// `true` exactly there, and the generator in its fixed seed state.
pub open spec fn spec_init(side: int, w: int, h: int) -> SimView {
    SimView {
        map: Seq::new(
            (w * h) as nat,
            |ci: int|
                in_square(ci / h, ci % h, side) || in_square(w - 1 - ci / h, h - 1 - ci % h, side),
        ),
        entities: init_entities(side, w, h, side * side),
        max_x: w,
        max_y: h,
        rng: seeded(),
    }
}

/// Whether cell `(a, b)` of the red square has been handled after `t` pairs.
pub open spec fn placed(a: int, b: int, side: int, t: int) -> bool {
    in_square(a, b, side) && a * side + b < t
}

/// Encoding a cell of a `side`-wide square as a pair number and decoding it
/// are inverse.
pub proof fn lemma_encode(a: int, b: int, side: int)
    by (nonlinear_arith)
    requires
        1 <= side,
        0 <= a,
        0 <= b < side,
    ensures
        (a * side + b) / side == a,
        (a * side + b) % side == b,
        0 <= a * side + b,
{
}

/// Division and remainder by a positive number recompose, and the quotient
/// of a number under `w * h` lies under `w`.
pub proof fn lemma_decode(t: int, w: int, h: int)
    by (nonlinear_arith)
    requires
        1 <= h,
        0 <= t,
        t < w * h,
    ensures
        0 <= t / h < w,
        0 <= t % h < h,
        (t / h) * h + t % h == t,
{
}

/// The first `k` pairs contribute `2 * k` entities.
pub proof fn lemma_init_entities_len(side: int, w: int, h: int, k: int)
    requires
        0 <= k,
    ensures
        init_entities(side, w, h, k).len() == 2 * k,
    decreases k,
{
    if k > 0 {
        lemma_init_entities_len(side, w, h, k - 1);
    }
}

/// Pair `t` stands at indices `2 t` and `2 t + 1`: the red entity of cell
/// `(t / side, t % side)` and the blue entity of the point-reflected cell.
pub proof fn lemma_init_entities_index(side: int, w: int, h: int, k: int, t: int)
    requires
        0 <= t < k,
    ensures
        init_entities(side, w, h, k)[2 * t] == red_at(t / side, t % side),
        init_entities(side, w, h, k)[2 * t + 1] == blue_at(w - 1 - t / side, h - 1 - t % side),
    decreases k,
{
    lemma_init_entities_len(side, w, h, k - 1);
    if t < k - 1 {
        lemma_init_entities_index(side, w, h, k - 1, t);
    }
}

/// A freshly constructed simulation is well-formed: both squares lie on the
/// grid and, since they fit side by side along one axis, they are disjoint.
pub proof fn lemma_init_wf(side: int, w: int, h: int)
    requires
        0 <= side,
        side <= w,
        side <= h,
        1 <= w <= usize::MAX,
        1 <= h <= usize::MAX,
        2 * side <= w || 2 * side <= h,
    ensures
        spec_init(side, w, h).wf(),
        spec_init(side, w, h).entities.len() == 2 * side * side,
{
    let s = spec_init(side, w, h);
    let n = side * side;
    assert(side * side >= 0) by (nonlinear_arith)
        requires
            side >= 0,
    ;
    assert(side <= 0 ==> side * side == 0) by (nonlinear_arith)
        requires
            side >= 0,
    ;
    assert(2 * (side * side) == 2 * side * side) by (nonlinear_arith);
    lemma_init_entities_len(side, w, h, n);
    // every entity is on the grid, and its cell is marked occupied
    assert forall|k: int| 0 <= k < s.entities.len() implies s.in_bounds(
        (#[trigger] s.entities[k]).x as int,
        s.entities[k].y as int,
    ) && s.occ(s.entities[k].x as int, s.entities[k].y as int) by {
        let t = k / 2;
        lemma_init_entities_index(side, w, h, n, t);
        lemma_decode(t, side, side);
        let a = t / side;
        let b = t % side;
        let px: int = if k % 2 == 0 {
            a
        } else {
            w - 1 - a
        };
        let py: int = if k % 2 == 0 {
            b
        } else {
            h - 1 - b
        };
        assert(s.entities[k].x as int == px && s.entities[k].y as int == py);
        assert(s.in_bounds(px, py));
        crate::sim::lemma_idx_bounds(px, py, w, h);
        lemma_encode(px, py, h);
        assert(s.occ(px, py));
    }
    // no two entities share a cell
    assert forall|k1: int, k2: int|
        0 <= k1 < k2 < s.entities.len() implies !((#[trigger] s.entities[k1]).x
        == (#[trigger] s.entities[k2]).x && s.entities[k1].y == s.entities[k2].y) by {
        let t1 = k1 / 2;
        let t2 = k2 / 2;
        lemma_init_entities_index(side, w, h, n, t1);
        lemma_init_entities_index(side, w, h, n, t2);
        lemma_decode(t1, side, side);
        lemma_decode(t2, side, side);
        if s.entities[k1].x == s.entities[k2].x && s.entities[k1].y == s.entities[k2].y {
            let a1 = t1 / side;
            let b1 = t1 % side;
            let a2 = t2 / side;
            let b2 = t2 % side;
            if k1 % 2 == 0 && k2 % 2 == 0 {
                assert(a1 == a2 && b1 == b2);
                assert(false);
            } else if k1 % 2 == 1 && k2 % 2 == 1 {
                assert(w - 1 - a1 == w - 1 - a2 && h - 1 - b1 == h - 1 - b2);
                assert(false);
            } else {
                // one red, one blue: the squares are disjoint along one axis
                assert(false);
            }
        }
    }
    // every occupied cell holds an entity
    assert forall|px: int, py: int|
        s.in_bounds(px, py) && #[trigger] s.occ(px, py) implies exists|k: int|
        0 <= k < s.entities.len() && s.entity_at(k, px, py) by {
        crate::sim::lemma_idx_bounds(px, py, w, h);
        lemma_encode(px, py, h);
        if in_square(px, py, side) {
            let t = px * side + py;
            crate::sim::lemma_idx_bounds(px, py, side, side);
            lemma_init_entities_index(side, w, h, n, t);
            lemma_encode(px, py, side);
            assert(s.entity_at(2 * t, px, py));
        } else {
            let a = w - 1 - px;
            let b = h - 1 - py;
            assert(in_square(a, b, side));
            let t = a * side + b;
            crate::sim::lemma_idx_bounds(a, b, side, side);
            lemma_init_entities_index(side, w, h, n, t);
            lemma_encode(a, b, side);
            assert(s.entities[2 * t + 1] == blue_at(w - 1 - a, h - 1 - b));
            assert(s.entity_at(2 * t + 1, px, py));
        }
    }
    assert(s.wf());
}

impl GameState {
    /// Build a fresh simulation on a `max_x` by `max_y` grid with two
    /// `square_side`-sided squares of entities in opposite corners, red at
    /// the origin corner and blue point-reflected, and the random source
    /// freshly seeded.  A side of zero yields an empty simulation.  The two
    /// squares must fit side by side along at least one axis, so that no two
    /// entities share a cell.
    pub fn new(square_side: usize, max_x: usize, max_y: usize) -> (r: GameState)
        requires
            1 <= max_x,
            1 <= max_y,
            max_x * max_y <= usize::MAX,
            square_side <= max_x,
            square_side <= max_y,
            2 * square_side <= max_x || 2 * square_side <= max_y,
        ensures
            r@ == spec_init(square_side as int, max_x as int, max_y as int),
            r@.wf(),
            r.max_x == max_x,
            r.max_y == max_y,
            r@.entities.len() == 2 * square_side * square_side,
    {
        let s = square_side;
        let total = max_x * max_y;
        let mut map: Vec<bool> = Vec::new();
        while map.len() < total
            invariant
                map@.len() <= total,
                forall|ci: int| 0 <= ci < map@.len() ==> !(#[trigger] map@[ci]),
            decreases total - map@.len(),
        {
            map.push(false);
        }
        let mut entities: Vec<Loc> = Vec::new();
        let mut x: usize = 0;
        while x < s
            invariant
                x <= s,
                s <= max_x,
                s <= max_y,
                1 <= max_x,
                1 <= max_y,
                max_x * max_y <= usize::MAX,
                map@.len() == max_x * max_y,
                entities@ == init_entities(
                    s as int,
                    max_x as int,
                    max_y as int,
                    x as int * s as int,
                ),
                forall|ci: int|
                    0 <= ci < map@.len() ==> #[trigger] map@[ci] == (placed(
                        ci / (max_y as int),
                        ci % (max_y as int),
                        s as int,
                        x as int * s as int,
                    ) || placed(
                        max_x - 1 - ci / (max_y as int),
                        max_y - 1 - ci % (max_y as int),
                        s as int,
                        x as int * s as int,
                    )),
            decreases s - x,
        {
            let mut y: usize = 0;
            while y < s
                invariant
                    y <= s,
                    x < s,
                    s <= max_x,
                    s <= max_y,
                    1 <= max_x,
                    1 <= max_y,
                    max_x * max_y <= usize::MAX,
                    map@.len() == max_x * max_y,
                    entities@ == init_entities(
                        s as int,
                        max_x as int,
                        max_y as int,
                        x as int * s as int + y as int,
                    ),
                    forall|ci: int|
                        0 <= ci < map@.len() ==> #[trigger] map@[ci] == (placed(
                            ci / (max_y as int),
                            ci % (max_y as int),
                            s as int,
                            x as int * s as int + y as int,
                        ) || placed(
                            max_x - 1 - ci / (max_y as int),
                            max_y - 1 - ci % (max_y as int),
                            s as int,
                            x as int * s as int + y as int,
                        )),
                decreases s - y,
            {
                let ghost sd = s as int;
                let ghost w = max_x as int;
                let ghost h = max_y as int;
                let ghost t = x as int * sd + y as int;
                let ghost old_map = map@;
                proof {
                    crate::sim::lemma_idx_bounds(x as int, y as int, sd, sd);
                    crate::sim::lemma_idx_bounds(x as int, y as int, w, h);
                    crate::sim::lemma_idx_bounds(w - 1 - x as int, h - 1 - y as int, w, h);
                    lemma_encode(x as int, y as int, h);
                    lemma_encode(w - 1 - x as int, h - 1 - y as int, h);
                    lemma_encode(x as int, y as int, sd);
                }
                let ri = x * max_y + y;
                map[ri] = true;
                entities.push(Loc { x, y, color: Color::Red });
                let bx = max_x - 1 - x;
                let bly = max_y - 1 - y;
                let bi = bx * max_y + bly;
                map[bi] = true;
                entities.push(Loc { x: bx, y: bly, color: Color::Blue });
                proof {
                    assert(entities@ == init_entities(sd, w, h, t + 1));
                    assert forall|ci: int| 0 <= ci < map@.len() implies #[trigger] map@[ci]
                        == (placed(ci / h, ci % h, sd, t + 1) || placed(
                        w - 1 - ci / h,
                        h - 1 - ci % h,
                        sd,
                        t + 1,
                    )) by {
                        lemma_decode(ci, w, h);
                        let a = ci / h;
                        let b = ci % h;
                        if ci == x as int * h + y as int {
                            assert(map@[ci]);
                            assert(placed(a, b, sd, t + 1));
                        } else if ci == (w - 1 - x as int) * h + (h - 1 - y as int) {
                            assert(map@[ci]);
                            assert(placed(w - 1 - a, h - 1 - b, sd, t + 1));
                        } else {
                            assert(map@[ci] == old_map[ci]);
                            if in_square(a, b, sd) && a * sd + b == t {
                                crate::sim::lemma_idx_injective(a, b, x as int, y as int, sd);
                                assert(false);
                            }
                            if in_square(w - 1 - a, h - 1 - b, sd) && (w - 1 - a) * sd + (h - 1 - b)
                                == t {
                                crate::sim::lemma_idx_injective(
                                    w - 1 - a,
                                    h - 1 - b,
                                    x as int,
                                    y as int,
                                    sd,
                                );
                                assert(false);
                            }
                            assert(placed(a, b, sd, t + 1) == placed(a, b, sd, t));
                            assert(placed(w - 1 - a, h - 1 - b, sd, t + 1) == placed(
                                w - 1 - a,
                                h - 1 - b,
                                sd,
                                t,
                            ));
                        }
                    }
                }
                y = y + 1;
            }
            proof {
                assert(x as int * s as int + s as int == (x as int + 1) * s as int)
                    by (nonlinear_arith);
            }
            x = x + 1;
        }
        let r = GameState { map, entities, max_x, max_y, rng: crate::rng::XorShift::new_seeded() };
        proof {
            let sd = square_side as int;
            let w = max_x as int;
            let h = max_y as int;
            lemma_init_wf(sd, w, h);
            assert forall|ci: int| 0 <= ci < w * h implies r@.map[ci] == spec_init(sd, w, h).map[ci]
                by {
                lemma_decode(ci, w, h);
                let a = ci / h;
                let b = ci % h;
                if in_square(a, b, sd) {
                    crate::sim::lemma_idx_bounds(a, b, sd, sd);
                }
                if in_square(w - 1 - a, h - 1 - b, sd) {
                    crate::sim::lemma_idx_bounds(w - 1 - a, h - 1 - b, sd, sd);
                }
            }
            assert(r@.map =~= spec_init(sd, w, h).map);
            assert(r@ =~= spec_init(sd, w, h));
        }
        r
    }
}

} // verus!
