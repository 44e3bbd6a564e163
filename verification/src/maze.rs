//! The generation pipeline: seed placement, random-walk growth, sprinkled
//! extra walls, a flood fill from the origin, and the closing pass that
//! turns unreached pockets into wall and colors the wall rectangles.
//!
//! Every decision is driven by draws from one shared generator, in a fixed
//! order.  A chance parameter acts by comparison against the unit-interval
//! image of a draw; because that image is monotone in the draw, each chance
//! is carried here as an exact integer threshold on the raw draw: the walk
//! continues while the draw is at least `termination_threshold`, and turns
//! when the draw is at most `turn_threshold`.

use vstd::prelude::*;
use vstd::math::abs;
use crate::grid::Cell;
use crate::grid::SquareMap;
use crate::grid::color_of;
use crate::prng::SeededGenerator;
use crate::prng::next_of;
use crate::prng::draw_int_of;

verus! {

/// The inclusive bounds the growth-seed count is drawn from; `max` itself
/// is excluded.
pub struct SeedRange {
    pub min: u32,
    pub max: u32,
}

/// One full set of inputs for a generation run.
pub struct Config {
    pub size: u32,
    pub maze_seed: u64,
    pub prng: SeededGenerator,
    pub seed_range: SeedRange,
    pub turn_threshold: u64,
    pub termination_threshold: u64,
    pub wall_wrapping: bool,
}

/// A growth seed: a walker position.
#[derive(Clone, Copy, Debug, PartialEq, Eq, Structural)]
pub struct Seed {
    pub x: u32,
    pub y: u32,
}

/// Whether `(x, y)` lies within Chebyshev distance `d` of the seed `s`.
pub open spec fn seed_near(s: Seed, x: u32, y: u32, d: u32) -> bool {
    abs(s.x - x) <= d && abs(s.y - y) <= d
}

pub struct SeedMaze {
    pub prng: SeededGenerator,
    pub seed_amount: u32,
    pub turn_threshold: u64,
    pub termination_threshold: u64,
    pub wall_wrapping: bool,
    pub seeds: Vec<Seed>,
    pub map: SquareMap,
}

/// Whether two positions are 4-connected neighbors.
pub open spec fn adjacent(x1: u32, y1: u32, x2: u32, y2: u32) -> bool {
    (x1 == x2 && abs(y1 - y2) == 1) || (y1 == y2 && abs(x1 - x2) == 1)
}

/// A 4-connected path from the origin whose cells past the origin are all
/// `Blank` in `m`.
pub open spec fn blank_path(m: SquareMap, p: Seq<(u32, u32)>) -> bool {
    &&& p.len() >= 1
    &&& p[0] == (0u32, 0u32)
    &&& forall|i: int| 0 <= i < p.len() ==> (#[trigger] p[i]).0 < m.size && p[i].1 < m.size
    &&& forall|i: int| 1 <= i < p.len() ==> m.at((#[trigger] p[i]).0, p[i].1) == Cell::Blank
    &&& forall|i: int|
        0 <= i < p.len() - 1 ==> adjacent((#[trigger] p[i]).0, p[i].1, p[i + 1].0, p[i + 1].1)
}

/// Whether the flood fill can reach `(x, y)` from the origin through
/// `Blank` cells of `m`.
pub open spec fn blank_reachable(m: SquareMap, x: u32, y: u32) -> bool {
    exists|p: Seq<(u32, u32)>| blank_path(m, p) && p.last() == (x, y)
}

/// A 4-connected path whose cells, the origin included, are all
/// `ConnectedBlank` in `m`.
pub open spec fn cb_path(m: SquareMap, p: Seq<(u32, u32)>) -> bool {
    &&& p.len() >= 1
    &&& p[0] == (0u32, 0u32)
    &&& forall|i: int|
        0 <= i < p.len() ==> (#[trigger] p[i]).0 < m.size && p[i].1 < m.size && m.at(
            p[i].0,
            p[i].1,
        ) == Cell::ConnectedBlank
    &&& forall|i: int|
        0 <= i < p.len() - 1 ==> adjacent((#[trigger] p[i]).0, p[i].1, p[i + 1].0, p[i + 1].1)
}

/// Whether a `ConnectedBlank` path joins the origin to `(x, y)`.
pub open spec fn cb_reachable(m: SquareMap, x: u32, y: u32) -> bool {
    exists|p: Seq<(u32, u32)>| cb_path(m, p) && p.last() == (x, y)
}

/// Marking further cells `ConnectedBlank` never breaks such a path.
proof fn lemma_cb_path_monotone(m1: SquareMap, m2: SquareMap, p: Seq<(u32, u32)>)
    requires
        m1.size == m2.size,
        forall|x: u32, y: u32|
            x < m1.size && y < m1.size && m1.at(x, y) == Cell::ConnectedBlank ==> m2.at(x, y)
                == Cell::ConnectedBlank,
        cb_path(m1, p),
    ensures
        cb_path(m2, p),
{
}

/// The number of `Blank` cells in the buffer.
pub open spec fn count_blank(cells: Seq<Cell>) -> nat
    decreases cells.len(),
{
    if cells.len() == 0 {
        0
    } else {
        count_blank(cells.drop_last()) + (if cells.last() == Cell::Blank {
            1nat
        } else {
            0nat
        })
    }
}

/// Overwriting a `Blank` cell with anything else lowers the count.
proof fn lemma_count_blank_update(cells: Seq<Cell>, i: int, v: Cell)
    requires
        0 <= i < cells.len(),
        cells[i] == Cell::Blank,
        v != Cell::Blank,
    ensures
        count_blank(cells.update(i, v)) < count_blank(cells),
    decreases cells.len(),
{
    if i == cells.len() - 1 {
        assert(cells.update(i, v).drop_last() =~= cells.drop_last());
    } else {
        assert(cells.update(i, v).drop_last() =~= cells.drop_last().update(i, v));
        lemma_count_blank_update(cells.drop_last(), i, v);
    }
}

/// With the origin `ConnectedBlank` and no `Blank` cell adjacent to a
/// `ConnectedBlank` one, no `Blank` cell can be reached from the origin
/// through `Blank` cells: every pocket is cut off.
pub proof fn lemma_no_blank_reachable(m: SquareMap, x: u32, y: u32)
    requires
        m.wf(),
        m.at(0, 0) == Cell::ConnectedBlank,
        forall|cx: u32, cy: u32, nx: u32, ny: u32|
            cx < m.size && cy < m.size && nx < m.size && ny < m.size && #[trigger] m.at(cx, cy)
                == Cell::ConnectedBlank && adjacent(cx, cy, nx, ny) ==> #[trigger] m.at(nx, ny)
                != Cell::Blank,
        x < m.size,
        y < m.size,
        m.at(x, y) == Cell::Blank,
    ensures
        !blank_reachable(m, x, y),
{
    if blank_reachable(m, x, y) {
        let p = choose|p: Seq<(u32, u32)>| blank_path(m, p) && p.last() == (x, y);
        if p.len() == 1 {
            assert(m.at(x, y) == Cell::ConnectedBlank);
        } else {
            assert(adjacent(p[0].0, p[0].1, p[1].0, p[1].1));
            assert(m.at(p[1].0, p[1].1) == Cell::Blank);
        }
    }
}

/// Once the fill has closed, every cell that a `Blank` path of the starting
/// grid reaches has been marked: the path is followed cell by cell, and at
/// each step the closure rules out the next cell staying `Blank`.
proof fn lemma_blank_path_marked(pre: SquareMap, m: SquareMap, p: Seq<(u32, u32)>)
    requires
        pre.size == m.size,
        blank_path(pre, p),
        m.at(0, 0) == Cell::ConnectedBlank,
        forall|x: u32, y: u32|
            x < m.size && y < m.size && m.at(x, y) != pre.at(x, y) ==> m.at(x, y)
                == Cell::ConnectedBlank,
        forall|cx: u32, cy: u32, nx: u32, ny: u32|
            cx < m.size && cy < m.size && nx < m.size && ny < m.size && #[trigger] m.at(cx, cy)
                == Cell::ConnectedBlank && adjacent(cx, cy, nx, ny) ==> #[trigger] m.at(nx, ny)
                != Cell::Blank,
    ensures
        m.at(p.last().0, p.last().1) == Cell::ConnectedBlank,
    decreases p.len(),
{
    if p.len() == 1 {
        assert(p.last() == (0u32, 0u32));
    } else {
        let q = p.drop_last();
        assert(blank_path(pre, q)) by {
            assert(q[0] == p[0]);
            assert forall|i: int| 0 <= i < q.len() implies (#[trigger] q[i]).0 < pre.size
                && q[i].1 < pre.size by {
                assert(q[i] == p[i]);
            }
            assert forall|i: int| 1 <= i < q.len() implies pre.at((#[trigger] q[i]).0, q[i].1)
                == Cell::Blank by {
                assert(q[i] == p[i]);
            }
            assert forall|i: int| 0 <= i < q.len() - 1 implies adjacent(
                (#[trigger] q[i]).0,
                q[i].1,
                q[i + 1].0,
                q[i + 1].1,
            ) by {
                assert(q[i] == p[i] && q[i + 1] == p[i + 1]);
            }
        }
        lemma_blank_path_marked(pre, m, q);
        let b = p[p.len() - 2];
        let c = p.last();
        assert(q.last() == b);
        assert(adjacent(b.0, b.1, c.0, c.1));
        assert(pre.at(c.0, c.1) == Cell::Blank);
        assert(m.at(c.0, c.1) != Cell::Blank);
    }
}

/// Whether some seed lies within Chebyshev distance `d` of `(x, y)`.
pub open spec fn near_some(seeds: Seq<Seed>, x: u32, y: u32, d: u32) -> bool {
    exists|i: int| 0 <= i < seeds.len() && #[trigger] seed_near(seeds[i], x, y, d)
}

/// One walk of phase B as a function of its inputs: each round consumes a
/// termination draw and stops on a draw below the threshold; otherwise the
/// walker advances one cell in its direction under wrapping arithmetic,
/// stops at the border without marking, and else marks the cell `Filled`,
/// consumes one discarded draw and one turn draw, and on a turn draw at or
/// below the threshold consumes one more bounded draw to pick the
/// perpendicular direction.  The walk also ends when `fuel` runs out; the
/// walk loop carries more fuel than any threshold in range can use.  The
/// 0-to-size remap of wall wrapping runs after the border stop and is the
/// identity on every reachable position, so no flag appears here.
pub open spec fn walk_steps(
    prng: u64,
    cells: Seq<Cell>,
    size: u32,
    tthr: u64,
    uthr: u64,
    wx: u32,
    wy: u32,
    dir: u32,
    fuel: nat,
) -> (u64, Seq<Cell>)
    decreases fuel,
{
    if fuel == 0 {
        (prng, cells)
    } else {
        let n1 = next_of(prng);
        if n1 < tthr {
            (n1, cells)
        } else {
            let nx = if dir == 0 {
                wx.wrapping_sub(1)
            } else if dir == 1 {
                wx.wrapping_add(1)
            } else {
                wx
            };
            let ny = if dir == 2 {
                wy.wrapping_sub(1)
            } else if dir == 3 {
                wy.wrapping_add(1)
            } else {
                wy
            };
            if nx == 0 || ny == 0 || nx >= size - 1 || ny >= size - 1 {
                (n1, cells)
            } else {
                let cells2 = crate::grid::put_cell(cells, size, nx, ny, Cell::Filled);
                let n3 = next_of(next_of(n1));
                if n3 <= uthr {
                    let n4 = next_of(n3);
                    let pick = draw_int_of(n4, 2);
                    let ndir = if dir < 2 {
                        (2 + pick) as u32
                    } else {
                        pick
                    };
                    walk_steps(n4, cells2, size, tthr, uthr, nx, ny, ndir, (fuel - 1) as nat)
                } else {
                    walk_steps(n3, cells2, size, tthr, uthr, nx, ny, dir, (fuel - 1) as nat)
                }
            }
        }
    }
}

/// Phase B as a function of its inputs: for each seed in list order, one
/// bounded draw picks the initial direction and the walk runs from the
/// seed's recorded position.
pub open spec fn grow_from_seeds(
    prng: u64,
    cells: Seq<Cell>,
    seeds: Seq<Seed>,
    size: u32,
    tthr: u64,
    uthr: u64,
    k: int,
) -> (u64, Seq<Cell>)
    decreases seeds.len() - k,
{
    if k < 0 || k >= seeds.len() {
        (prng, cells)
    } else {
        let n1 = next_of(prng);
        let dir = draw_int_of(n1, 4);
        let w = walk_steps(n1, cells, size, tthr, uthr, seeds[k].x, seeds[k].y, dir, 100000000);
        grow_from_seeds(w.0, w.1, seeds, size, tthr, uthr, k + 1)
    }
}

/// Phase A as a function of its inputs: an attempt draws x then y (both
/// draws consumed even on rejection), rejects a candidate within Chebyshev
/// distance 3 of an accepted seed or on the border, and otherwise marks it
/// `Filled` and records it; placement stops once `amount` seeds are
/// accepted or the attempts run out.
pub open spec fn place_attempts(
    prng: u64,
    cells: Seq<Cell>,
    seeds: Seq<Seed>,
    size: u32,
    amount: u32,
    attempts: nat,
) -> (u64, Seq<Cell>, Seq<Seed>)
    decreases attempts,
{
    if attempts == 0 || seeds.len() >= amount {
        (prng, cells, seeds)
    } else {
        let n1 = next_of(prng);
        let lx = draw_int_of(n1, size);
        let n2 = next_of(n1);
        let ly = draw_int_of(n2, size);
        if near_some(seeds, lx, ly, 3) || lx == 0 || ly == 0 || lx >= size - 1 || ly >= size
            - 1 {
            place_attempts(n2, cells, seeds, size, amount, (attempts - 1) as nat)
        } else {
            place_attempts(
                n2,
                crate::grid::put_cell(cells, size, lx, ly, Cell::Filled),
                seeds.push(Seed { x: lx, y: ly }),
                size,
                amount,
                (attempts - 1) as nat,
            )
        }
    }
}

/// Phase C as a function of its inputs: each attempt draws a candidate
/// coordinate pair, each coordinate a bounded draw minus one under
/// wrapping subtraction, and marks it `Filled` unless it lies within
/// Chebyshev distance 2 of a recorded placement or out of bounds.
pub open spec fn sprinkle_attempts(
    prng: u64,
    cells: Seq<Cell>,
    seeds: Seq<Seed>,
    size: u32,
    attempts: nat,
) -> (u64, Seq<Cell>)
    decreases attempts,
{
    if attempts == 0 {
        (prng, cells)
    } else {
        let n1 = next_of(prng);
        let lx = draw_int_of(n1, size).wrapping_sub(1);
        let n2 = next_of(n1);
        let ly = draw_int_of(n2, size).wrapping_sub(1);
        if near_some(seeds, lx, ly, 2) || lx >= size || ly >= size {
            sprinkle_attempts(n2, cells, seeds, size, (attempts - 1) as nat)
        } else {
            sprinkle_attempts(
                n2,
                crate::grid::put_cell(cells, size, lx, ly, Cell::Filled),
                seeds,
                size,
                (attempts - 1) as nat,
            )
        }
    }
}

/// Whether `(x, y)` lies within Chebyshev distance `d` of some seed.
fn near_any(seeds: &Vec<Seed>, x: u32, y: u32, d: u32) -> (b: bool)
    ensures
        b <==> near_some(seeds@, x, y, d),
{
    let n = seeds.len();
    let mut i: usize = 0;
    while i < n
        invariant
            i <= n,
            n == seeds@.len(),
            forall|j: int| 0 <= j < i ==> !(#[trigger] seed_near(seeds@[j], x, y, d)),
        decreases n - i,
    {
        let s = seeds[i];
        let dx = if s.x >= x {
            s.x - x
        } else {
            x - s.x
        };
        let dy = if s.y >= y {
            s.y - y
        } else {
            y - s.y
        };
        if dx <= d && dy <= d {
            proof {
                assert(seed_near(seeds@[i as int], x, y, d));
            }
            return true;
        }
        i = i + 1;
    }
    false
}

/// The perpendicular direction picked when a walk turns: directions are
/// numbered left, right, up, down; a horizontal walk turns up or down, a
/// vertical one left or right, in that order.
fn perpendicular(dir: u32, pick: u32) -> (r: u32)
    requires
        dir < 4,
        pick < 2,
    ensures
        r < 4,
        dir < 2 ==> r == 2 + pick,
        dir >= 2 ==> r == pick,
{
    if dir < 2 {
        2 + pick
    } else {
        pick
    }
}


/// One neighbor probe of the flood fill: if the candidate is in bounds and
/// `Blank`, it is marked `ConnectedBlank` and enqueued.  The working
/// invariants of the fill are carried through: queue entries are marked and
/// in bounds, only `Blank` cells (and the origin) have been rewritten,
/// every marked cell has a marked path to the origin and sits in the
/// queue, and cells already processed keep no `Blank` neighbor.
#[verifier::rlimit(100)]
#[verifier::spinoff_prover]
fn bfs_visit(
    m: &mut SquareMap,
    queue: &mut Vec<(u32, u32)>,
    cx: u32,
    cy: u32,
    nx: u32,
    ny: u32,
    Ghost(pre): Ghost<SquareMap>,
    Ghost(h): Ghost<int>,
) -> (pushed: bool)
    requires
        old(m).wf(),
        pre.size == old(m).size,
        cx < old(m).size,
        cy < old(m).size,
        nx < old(m).size && ny < old(m).size ==> adjacent(cx, cy, nx, ny),
        old(m).at(cx, cy) == Cell::ConnectedBlank,
        blank_reachable(pre, cx, cy),
        0 <= h <= old(queue)@.len(),
        forall|j: int|
            0 <= j < old(queue)@.len() ==> (#[trigger] old(queue)@[j]).0 < old(m).size && old(
                queue,
            )@[j].1 < old(m).size && old(m).at(old(queue)@[j].0, old(queue)@[j].1)
                == Cell::ConnectedBlank,
        forall|x: u32, y: u32|
            x < old(m).size && y < old(m).size && old(m).at(x, y) != pre.at(x, y) ==> old(m).at(
                x,
                y,
            ) == Cell::ConnectedBlank && ((x == 0 && y == 0) || (pre.at(x, y) == Cell::Blank
                && blank_reachable(pre, x, y))),
        forall|x: u32, y: u32|
            x < old(m).size && y < old(m).size && #[trigger] old(m).at(x, y)
                == Cell::ConnectedBlank ==> cb_reachable(*old(m), x, y),
        forall|x: u32, y: u32|
            x < old(m).size && y < old(m).size && #[trigger] old(m).at(x, y)
                == Cell::ConnectedBlank ==> exists|j: int|
                0 <= j < old(queue)@.len() && #[trigger] old(queue)@[j] == (x, y),
        forall|j: int, ax: u32, ay: u32|
            0 <= j < h && ax < old(m).size && ay < old(m).size && adjacent(
                (#[trigger] old(queue)@[j]).0,
                old(queue)@[j].1,
                ax,
                ay,
            ) ==> #[trigger] old(m).at(ax, ay) != Cell::Blank,
    ensures
        final(m).wf(),
        final(m).size == old(m).size,
        final(m).maze_seed == old(m).maze_seed,
        final(m).walls == old(m).walls,
        pushed <==> (nx < old(m).size && ny < old(m).size && old(m).at(nx, ny) == Cell::Blank),
        pushed ==> final(m).at(nx, ny) == Cell::ConnectedBlank && final(queue)@ == old(
            queue,
        )@.push((nx, ny)) && count_blank(final(m).cells@) < count_blank(old(m).cells@),
        !pushed ==> *final(m) == *old(m) && final(queue)@ == old(queue)@,
        forall|x: u32, y: u32|
            x < old(m).size && y < old(m).size && !(x == nx && y == ny) ==> final(m).at(x, y)
                == old(m).at(x, y),
        forall|x: u32, y: u32|
            x < old(m).size && y < old(m).size && #[trigger] old(m).at(x, y)
                == Cell::ConnectedBlank ==> final(m).at(x, y) == Cell::ConnectedBlank,
        forall|j: int|
            0 <= j < final(queue)@.len() ==> (#[trigger] final(queue)@[j]).0 < old(m).size
                && final(queue)@[j].1 < old(m).size && final(m).at(
                final(queue)@[j].0,
                final(queue)@[j].1,
            ) == Cell::ConnectedBlank,
        forall|x: u32, y: u32|
            x < old(m).size && y < old(m).size && final(m).at(x, y) != pre.at(x, y)
                ==> final(m).at(x, y) == Cell::ConnectedBlank && ((x == 0 && y == 0) || (pre.at(
                x,
                y,
            ) == Cell::Blank && blank_reachable(pre, x, y))),
        forall|x: u32, y: u32|
            x < old(m).size && y < old(m).size && #[trigger] final(m).at(x, y)
                == Cell::ConnectedBlank ==> cb_reachable(*final(m), x, y),
        forall|x: u32, y: u32|
            x < old(m).size && y < old(m).size && #[trigger] final(m).at(x, y)
                == Cell::ConnectedBlank ==> exists|j: int|
                0 <= j < final(queue)@.len() && #[trigger] final(queue)@[j] == (x, y),
        forall|j: int, ax: u32, ay: u32|
            0 <= j < h && ax < old(m).size && ay < old(m).size && adjacent(
                (#[trigger] final(queue)@[j]).0,
                final(queue)@[j].1,
                ax,
                ay,
            ) ==> #[trigger] final(m).at(ax, ay) != Cell::Blank,
{
    if !(nx < m.size && ny < m.size) {
        return false;
    }
    if m.get(nx, ny) != Cell::Blank {
        return false;
    }
    let ghost before = *m;
    let ghost qbefore = queue@;
    proof {
        crate::grid::index_bound(m.size, nx, ny);
    }
    m.set(nx, ny, Cell::ConnectedBlank);
    queue.push((nx, ny));
    proof {
        lemma_count_blank_update(
            before.cells@,
            ny as int * before.size as int + nx as int,
            Cell::ConnectedBlank,
        );
        assert(pre.at(nx, ny) == Cell::Blank);
        let bp = choose|bp: Seq<(u32, u32)>| blank_path(pre, bp) && bp.last() == (cx, cy);
        let bp2 = bp.push((nx, ny));
        assert(bp2.last() == (nx, ny));
        assert(blank_path(pre, bp2));
        assert(blank_reachable(pre, nx, ny));
        assert forall|x: u32, y: u32|
            x < before.size && y < before.size && #[trigger] m.at(x, y)
                == Cell::ConnectedBlank implies cb_reachable(*m, x, y) by {
            if x == nx && y == ny {
                let p = choose|p: Seq<(u32, u32)>| cb_path(before, p) && p.last() == (cx, cy);
                lemma_cb_path_monotone(before, *m, p);
                let p2 = p.push((nx, ny));
                assert(p2.last() == (nx, ny));
                assert(cb_path(*m, p2));
            } else {
                assert(before.at(x, y) == Cell::ConnectedBlank);
                let p = choose|p: Seq<(u32, u32)>| cb_path(before, p) && p.last() == (x, y);
                lemma_cb_path_monotone(before, *m, p);
            }
        }
        assert forall|x: u32, y: u32|
            x < before.size && y < before.size && #[trigger] m.at(x, y)
                == Cell::ConnectedBlank implies exists|j: int|
            0 <= j < queue@.len() && #[trigger] queue@[j] == (x, y) by {
            if x == nx && y == ny {
                assert(queue@[queue@.len() - 1] == (x, y));
            } else {
                assert(before.at(x, y) == Cell::ConnectedBlank);
                let j = choose|j: int| 0 <= j < qbefore.len() && #[trigger] qbefore[j] == (x, y);
                assert(queue@[j] == (x, y));
            }
        }
    }
    true
}

impl SeedMaze {
    pub open spec fn wf(&self) -> bool {
        &&& self.prng.wf()
        &&& self.map.wf()
    }

    /// Draws the growth-seed count for this run; with `min < max` it lies
    /// in `[min, max)`.
    pub fn new(config: Config) -> (r: Self)
        requires
            config.prng.wf(),
            1 <= config.size <= 65535,
            config.seed_range.min <= config.seed_range.max,
        ensures
            r.wf(),
            r.prng.seed == next_of(config.prng.seed),
            r.seed_amount == draw_int_of(
                next_of(config.prng.seed),
                (config.seed_range.max - config.seed_range.min) as u32,
            ) + config.seed_range.min,
            config.seed_range.min < config.seed_range.max ==> config.seed_range.min
                <= r.seed_amount < config.seed_range.max,
            config.seed_range.min == config.seed_range.max ==> r.seed_amount
                == config.seed_range.min,
            r.turn_threshold == config.turn_threshold,
            r.termination_threshold == config.termination_threshold,
            r.wall_wrapping == config.wall_wrapping,
            r.seeds@.len() == 0,
            r.map.size == config.size,
            r.map.maze_seed == config.maze_seed,
            r.map.walls@.len() == 0,
            forall|x: u32, y: u32|
                x < config.size && y < config.size ==> r.map.at(x, y) == Cell::Blank,
    {
        let Config { size, maze_seed, mut prng, seed_range, turn_threshold, termination_threshold, wall_wrapping } =
            config;
        let seed_amount = prng.next_int(seed_range.max - seed_range.min) + seed_range.min;
        let seeds: Vec<Seed> = Vec::new();
        let map = SquareMap::new(size, maze_seed);
        SeedMaze {
            prng,
            seed_amount,
            turn_threshold,
            termination_threshold,
            wall_wrapping,
            seeds,
            map,
        }
    }

    /// Places up to `seed_amount` growth seeds in up to 10000 attempts.
    /// Every accepted seed is interior, marked `Filled`, and more than
    /// Chebyshev distance 3 from every other; rejected attempts still
    /// consume their two draws.
    #[verifier::rlimit(100)]
    pub fn seed_walls(&mut self)
        requires
            old(self).wf(),
            old(self).seeds@.len() == 0,
        ensures
            final(self).wf(),
            final(self).map.size == old(self).map.size,
            final(self).map.maze_seed == old(self).map.maze_seed,
            final(self).map.walls == old(self).map.walls,
            final(self).seed_amount == old(self).seed_amount,
            final(self).turn_threshold == old(self).turn_threshold,
            final(self).termination_threshold == old(self).termination_threshold,
            final(self).wall_wrapping == old(self).wall_wrapping,
            final(self).seeds@.len() <= final(self).seed_amount,
            forall|i: int|
                0 <= i < final(self).seeds@.len() ==> 0 < (#[trigger] final(self).seeds@[i]).x < (
                final(self).map.size - 1) && 0 < final(self).seeds@[i].y < (final(self).map.size
                    - 1),
            forall|i: int, j: int|
                0 <= i < final(self).seeds@.len() && 0 <= j < final(self).seeds@.len() && i != j
                    ==> !seed_near(
                    #[trigger] final(self).seeds@[i],
                    (#[trigger] final(self).seeds@[j]).x,
                    final(self).seeds@[j].y,
                    3,
                ),
            forall|i: int|
                0 <= i < final(self).seeds@.len() ==> final(self).map.at(
                    (#[trigger] final(self).seeds@[i]).x,
                    final(self).seeds@[i].y,
                ) == Cell::Filled,
            forall|xx: u32, yy: u32|
                xx < old(self).map.size && yy < old(self).map.size && final(self).map.at(xx, yy)
                    != old(self).map.at(xx, yy) ==> final(self).map.at(xx, yy) == Cell::Filled
                    && exists|i: int|
                    0 <= i < final(self).seeds@.len() && (#[trigger] final(self).seeds@[i]).x == xx
                        && final(self).seeds@[i].y == yy,
            (final(self).prng.seed, final(self).map.cells@, final(self).seeds@) == place_attempts(
                old(self).prng.seed,
                old(self).map.cells@,
                old(self).seeds@,
                old(self).map.size,
                old(self).seed_amount,
                10000,
            ),
    {
        let size = self.map.size;
        let mut attempt: u32 = 0;
        while attempt < 10000
            invariant
                self.wf(),
                size == self.map.size,
                self.map.size == old(self).map.size,
                self.map.maze_seed == old(self).map.maze_seed,
                self.map.walls == old(self).map.walls,
                self.seed_amount == old(self).seed_amount,
                self.turn_threshold == old(self).turn_threshold,
                self.termination_threshold == old(self).termination_threshold,
                self.wall_wrapping == old(self).wall_wrapping,
                self.seeds@.len() <= self.seed_amount,
                forall|i: int|
                    0 <= i < self.seeds@.len() ==> 0 < (#[trigger] self.seeds@[i]).x < (size - 1)
                        && 0 < self.seeds@[i].y < (size - 1),
                forall|i: int, j: int|
                    0 <= i < self.seeds@.len() && 0 <= j < self.seeds@.len() && i != j
                        ==> !seed_near(
                        #[trigger] self.seeds@[i],
                        (#[trigger] self.seeds@[j]).x,
                        self.seeds@[j].y,
                        3,
                    ),
                forall|i: int|
                    0 <= i < self.seeds@.len() ==> self.map.at(
                        (#[trigger] self.seeds@[i]).x,
                        self.seeds@[i].y,
                    ) == Cell::Filled,
                forall|xx: u32, yy: u32|
                    xx < size && yy < size && self.map.at(xx, yy) != old(self).map.at(xx, yy)
                        ==> self.map.at(xx, yy) == Cell::Filled && exists|i: int|
                        0 <= i < self.seeds@.len() && (#[trigger] self.seeds@[i]).x == xx
                            && self.seeds@[i].y == yy,
                attempt <= 10000,
                place_attempts(
                    self.prng.seed,
                    self.map.cells@,
                    self.seeds@,
                    size,
                    self.seed_amount,
                    (10000 - attempt) as nat,
                ) == place_attempts(
                    old(self).prng.seed,
                    old(self).map.cells@,
                    old(self).seeds@,
                    size,
                    old(self).seed_amount,
                    10000,
                ),
            decreases 10000 - attempt,
        {
            let ghost pv_prng = self.prng.seed;
            let ghost pv_cells = self.map.cells@;
            let ghost pv_seeds = self.seeds@;
            let ghost rem = (10000 - attempt) as nat;
            if self.seeds.len() >= self.seed_amount as usize {
                attempt = attempt + 1;
                proof {
                    assert(place_attempts(pv_prng, pv_cells, pv_seeds, size, self.seed_amount, rem)
                        == place_attempts(
                        self.prng.seed,
                        self.map.cells@,
                        self.seeds@,
                        size,
                        self.seed_amount,
                        (rem - 1) as nat,
                    ));
                }
                continue;
            }
            let lx = self.prng.next_int(size);
            let ly = self.prng.next_int(size);
            let near = near_any(&self.seeds, lx, ly, 3);
            if !near && !(lx == 0 || ly == 0 || lx >= size - 1 || ly >= size - 1) {
                let ghost before = *self;
                self.map.set(lx, ly, Cell::Filled);
                self.seeds.push(Seed { x: lx, y: ly });
                proof {
                    let sn = self.seeds@.len() - 1;
                    assert(self.seeds@[sn] == Seed { x: lx, y: ly });
                    assert forall|i: int, j: int|
                        0 <= i < self.seeds@.len() && 0 <= j < self.seeds@.len() && i
                            != j implies !seed_near(
                        #[trigger] self.seeds@[i],
                        (#[trigger] self.seeds@[j]).x,
                        self.seeds@[j].y,
                        3,
                    ) by {
                        if j == sn && i < sn {
                            assert(!seed_near(before.seeds@[i], lx, ly, 3));
                        } else if i == sn && j < sn {
                            assert(!seed_near(before.seeds@[j], lx, ly, 3));
                        }
                    }
                    assert forall|xx: u32, yy: u32|
                        xx < size && yy < size && self.map.at(xx, yy) != old(self).map.at(
                            xx,
                            yy,
                        ) implies self.map.at(xx, yy) == Cell::Filled && exists|i: int|
                        0 <= i < self.seeds@.len() && (#[trigger] self.seeds@[i]).x == xx
                            && self.seeds@[i].y == yy by {
                        if xx == lx && yy == ly {
                            assert((self.seeds@[sn]).x == xx && self.seeds@[sn].y == yy);
                        } else {
                            assert(self.map.at(xx, yy) == before.map.at(xx, yy));
                            if before.map.at(xx, yy) != old(self).map.at(xx, yy) {
                                let w = choose|i: int|
                                    0 <= i < before.seeds@.len() && (
                                    #[trigger] before.seeds@[i]).x == xx && before.seeds@[i].y
                                        == yy;
                                assert((self.seeds@[w]).x == xx && self.seeds@[w].y == yy);
                            }
                        }
                    }
                }
            }
            attempt = attempt + 1;
            proof {
                assert(place_attempts(pv_prng, pv_cells, pv_seeds, size, self.seed_amount, rem)
                    == place_attempts(
                    self.prng.seed,
                    self.map.cells@,
                    self.seeds@,
                    size,
                    self.seed_amount,
                    (rem - 1) as nat,
                ));
            }
        }
    }

    /// Grows a wall path from each seed in list order, exactly as
    /// `grow_from_seeds` prescribes.  A walk stops without marking when it
    /// reaches the border.  Walker positions are scratch copies; the
    /// recorded seed placements stay as phase A left them.  The result does
    /// not depend on `wall_wrapping`: the remap runs only after the border
    /// stop has excluded every coordinate it would change.
    #[verifier::rlimit(100)]
    #[verifier::spinoff_prover]
    pub fn grow_walls(&mut self)
        requires
            old(self).wf(),
        ensures
            final(self).wf(),
            final(self).map.size == old(self).map.size,
            final(self).map.maze_seed == old(self).map.maze_seed,
            final(self).map.walls == old(self).map.walls,
            final(self).seeds == old(self).seeds,
            final(self).seed_amount == old(self).seed_amount,
            final(self).turn_threshold == old(self).turn_threshold,
            final(self).termination_threshold == old(self).termination_threshold,
            final(self).wall_wrapping == old(self).wall_wrapping,
            forall|xx: u32, yy: u32|
                xx < old(self).map.size && yy < old(self).map.size && final(self).map.at(xx, yy)
                    != old(self).map.at(xx, yy) ==> final(self).map.at(xx, yy) == Cell::Filled && 0
                    < xx < (old(self).map.size - 1) && 0 < yy < (old(self).map.size - 1),
            (final(self).prng.seed, final(self).map.cells@) == grow_from_seeds(
                old(self).prng.seed,
                old(self).map.cells@,
                old(self).seeds@,
                old(self).map.size,
                old(self).termination_threshold,
                old(self).turn_threshold,
                0,
            ),
    {
        let size = self.map.size;
        let n = self.seeds.len();
        let mut si: usize = 0;
        while si < n
            invariant
                self.wf(),
                n == self.seeds@.len(),
                size == self.map.size,
                self.map.size == old(self).map.size,
                self.map.maze_seed == old(self).map.maze_seed,
                self.map.walls == old(self).map.walls,
                self.seeds == old(self).seeds,
                self.seed_amount == old(self).seed_amount,
                self.turn_threshold == old(self).turn_threshold,
                self.termination_threshold == old(self).termination_threshold,
                self.wall_wrapping == old(self).wall_wrapping,
                forall|xx: u32, yy: u32|
                    xx < size && yy < size && self.map.at(xx, yy) != old(self).map.at(xx, yy)
                        ==> self.map.at(xx, yy) == Cell::Filled && 0 < xx < (size - 1) && 0 < yy < (
                    size - 1),
                grow_from_seeds(
                    self.prng.seed,
                    self.map.cells@,
                    old(self).seeds@,
                    size,
                    old(self).termination_threshold,
                    old(self).turn_threshold,
                    si as int,
                ) == grow_from_seeds(
                    old(self).prng.seed,
                    old(self).map.cells@,
                    old(self).seeds@,
                    size,
                    old(self).termination_threshold,
                    old(self).turn_threshold,
                    0,
                ),
            decreases n - si,
        {
            let ghost sv_prng = self.prng.seed;
            let ghost sv_cells = self.map.cells@;
            let mut wx = self.seeds[si].x;
            let mut wy = self.seeds[si].y;
            let mut dir: u32 = self.prng.next_int(4);
            let ghost walk_target = walk_steps(
                self.prng.seed,
                self.map.cells@,
                size,
                self.termination_threshold,
                self.turn_threshold,
                wx,
                wy,
                dir,
                100000000,
            );
            // One draw below the termination threshold, or the border, stops
            // a walk; the step bound only makes that termination a checked
            // fact, and is far beyond any walk a threshold in range allows.
            let mut step: u64 = 0;
            while step < 100000000
                invariant_except_break
                    self.wf(),
                    dir < 4,
                    size == self.map.size,
                    self.map.size == old(self).map.size,
                    self.map.maze_seed == old(self).map.maze_seed,
                    self.map.walls == old(self).map.walls,
                    self.seeds == old(self).seeds,
                    self.seed_amount == old(self).seed_amount,
                    self.turn_threshold == old(self).turn_threshold,
                    self.termination_threshold == old(self).termination_threshold,
                    self.wall_wrapping == old(self).wall_wrapping,
                    forall|xx: u32, yy: u32|
                        xx < size && yy < size && self.map.at(xx, yy) != old(self).map.at(xx, yy)
                            ==> self.map.at(xx, yy) == Cell::Filled && 0 < xx < (size - 1) && 0
                            < yy < (size - 1),
                    step <= 100000000,
                    walk_steps(
                        self.prng.seed,
                        self.map.cells@,
                        size,
                        self.termination_threshold,
                        self.turn_threshold,
                        wx,
                        wy,
                        dir,
                        (100000000 - step) as nat,
                    ) == walk_target,
                ensures
                    self.wf(),
                    size == self.map.size,
                    self.map.size == old(self).map.size,
                    self.map.maze_seed == old(self).map.maze_seed,
                    self.map.walls == old(self).map.walls,
                    self.seeds == old(self).seeds,
                    self.seed_amount == old(self).seed_amount,
                    self.turn_threshold == old(self).turn_threshold,
                    self.termination_threshold == old(self).termination_threshold,
                    self.wall_wrapping == old(self).wall_wrapping,
                    forall|xx: u32, yy: u32|
                        xx < size && yy < size && self.map.at(xx, yy) != old(self).map.at(xx, yy)
                            ==> self.map.at(xx, yy) == Cell::Filled && 0 < xx < (size - 1) && 0
                            < yy < (size - 1),
                    (self.prng.seed, self.map.cells@) == walk_target,
                decreases 100000000 - step,
            {
                let ghost opv_prng = self.prng.seed;
                let ghost opv_cells = self.map.cells@;
                let ghost owx = wx;
                let ghost owy = wy;
                let ghost odir = dir;
                let ghost ofuel = (100000000 - step) as nat;
                step = step + 1;
                let t = self.prng.next();
                if t < self.termination_threshold {
                    proof {
                        assert(walk_steps(
                            opv_prng,
                            opv_cells,
                            size,
                            self.termination_threshold,
                            self.turn_threshold,
                            owx,
                            owy,
                            odir,
                            ofuel,
                        ) == (self.prng.seed, self.map.cells@));
                    }
                    break;
                }
                if dir == 0 {
                    wx = wx.wrapping_sub(1);
                } else if dir == 1 {
                    wx = wx.wrapping_add(1);
                } else if dir == 2 {
                    wy = wy.wrapping_sub(1);
                } else {
                    wy = wy.wrapping_add(1);
                }
                if wx == 0 || wy == 0 || wx >= size - 1 || wy >= size - 1 {
                    proof {
                        assert(walk_steps(
                            opv_prng,
                            opv_cells,
                            size,
                            self.termination_threshold,
                            self.turn_threshold,
                            owx,
                            owy,
                            odir,
                            ofuel,
                        ) == (self.prng.seed, self.map.cells@));
                    }
                    break;
                }
                if self.wall_wrapping {
                    wx = if wx == 0 {
                        size
                    } else if wx == size {
                        1
                    } else {
                        wx
                    };
                    wy = if wy == 0 {
                        size
                    } else if wy == size {
                        1
                    } else {
                        wy
                    };
                }
                self.map.set(wx, wy, Cell::Filled);
                let _discard: u64 = self.prng.next();
                let t2 = self.prng.next();
                if t2 <= self.turn_threshold {
                    let pick = self.prng.next_int(2);
                    dir = perpendicular(dir, pick);
                }
                proof {
                    assert(walk_steps(
                        opv_prng,
                        opv_cells,
                        size,
                        self.termination_threshold,
                        self.turn_threshold,
                        owx,
                        owy,
                        odir,
                        ofuel,
                    ) == walk_steps(
                        self.prng.seed,
                        self.map.cells@,
                        size,
                        self.termination_threshold,
                        self.turn_threshold,
                        wx,
                        wy,
                        dir,
                        (ofuel - 1) as nat,
                    ));
                }
            }
            proof {
                assert(grow_from_seeds(
                    sv_prng,
                    sv_cells,
                    old(self).seeds@,
                    size,
                    old(self).termination_threshold,
                    old(self).turn_threshold,
                    si as int,
                ) == grow_from_seeds(
                    self.prng.seed,
                    self.map.cells@,
                    old(self).seeds@,
                    size,
                    old(self).termination_threshold,
                    old(self).turn_threshold,
                    si as int + 1,
                ));
            }
            si = si + 1;
        }
    }

    /// Exactly 15 attempts to mark one extra wall cell each: a draw minus
    /// one with unsigned wraparound for each coordinate, rejected near a
    /// recorded seed placement or out of bounds.
    #[verifier::rlimit(60)]
    pub fn sprinkle_walls(&mut self)
        requires
            old(self).wf(),
        ensures
            final(self).wf(),
            final(self).map.size == old(self).map.size,
            final(self).map.maze_seed == old(self).map.maze_seed,
            final(self).map.walls == old(self).map.walls,
            final(self).seeds == old(self).seeds,
            final(self).seed_amount == old(self).seed_amount,
            final(self).turn_threshold == old(self).turn_threshold,
            final(self).termination_threshold == old(self).termination_threshold,
            final(self).wall_wrapping == old(self).wall_wrapping,
            forall|xx: u32, yy: u32|
                xx < old(self).map.size && yy < old(self).map.size && final(self).map.at(xx, yy)
                    != old(self).map.at(xx, yy) ==> final(self).map.at(xx, yy) == Cell::Filled
                    && xx as int <= old(self).map.size - 2 && yy as int <= old(self).map.size - 2
                    && forall|i: int|
                    0 <= i < old(self).seeds@.len() ==> !seed_near(
                        #[trigger] old(self).seeds@[i],
                        xx,
                        yy,
                        2,
                    ),
            (final(self).prng.seed, final(self).map.cells@) == sprinkle_attempts(
                old(self).prng.seed,
                old(self).map.cells@,
                old(self).seeds@,
                old(self).map.size,
                15,
            ),
    {
        let size = self.map.size;
        let mut attempt: u32 = 0;
        while attempt < 15
            invariant
                self.wf(),
                size == self.map.size,
                self.map.size == old(self).map.size,
                self.map.maze_seed == old(self).map.maze_seed,
                self.map.walls == old(self).map.walls,
                self.seeds == old(self).seeds,
                self.seed_amount == old(self).seed_amount,
                self.turn_threshold == old(self).turn_threshold,
                self.termination_threshold == old(self).termination_threshold,
                self.wall_wrapping == old(self).wall_wrapping,
                forall|xx: u32, yy: u32|
                    xx < size && yy < size && self.map.at(xx, yy) != old(self).map.at(xx, yy)
                        ==> self.map.at(xx, yy) == Cell::Filled && xx as int <= size - 2
                        && yy as int <= size - 2 && forall|i: int|
                        0 <= i < old(self).seeds@.len() ==> !seed_near(
                            #[trigger] old(self).seeds@[i],
                            xx,
                            yy,
                            2,
                        ),
                attempt <= 15,
                sprinkle_attempts(
                    self.prng.seed,
                    self.map.cells@,
                    old(self).seeds@,
                    size,
                    (15 - attempt) as nat,
                ) == sprinkle_attempts(
                    old(self).prng.seed,
                    old(self).map.cells@,
                    old(self).seeds@,
                    size,
                    15,
                ),
            decreases 15 - attempt,
        {
            let ghost pv_prng = self.prng.seed;
            let ghost pv_cells = self.map.cells@;
            let ghost rem = (15 - attempt) as nat;
            let lx = self.prng.next_int(size).wrapping_sub(1);
            let ly = self.prng.next_int(size).wrapping_sub(1);
            let near = near_any(&self.seeds, lx, ly, 2);
            if !near && !(lx >= size || ly >= size) {
                self.map.set(lx, ly, Cell::Filled);
            }
            attempt = attempt + 1;
            proof {
                assert(sprinkle_attempts(pv_prng, pv_cells, old(self).seeds@, size, rem)
                    == sprinkle_attempts(
                    self.prng.seed,
                    self.map.cells@,
                    old(self).seeds@,
                    size,
                    (rem - 1) as nat,
                ));
            }
        }
    }

    /// Breadth-first flood fill over 4-connected neighbors from the origin,
    /// which is marked `ConnectedBlank` unconditionally; if the origin was
    /// not `Blank` the search ends there and nothing else changes.
    /// Afterwards every `ConnectedBlank` cell has a `ConnectedBlank` path
    /// back to the origin, and with a `Blank` origin no remaining `Blank`
    /// cell touches the connected region.
    #[verifier::rlimit(100)]
    #[verifier::spinoff_prover]
    pub fn find_pockets(&mut self)
        requires
            old(self).wf(),
            forall|xx: u32, yy: u32|
                xx < old(self).map.size && yy < old(self).map.size ==> old(self).map.at(xx, yy)
                    != Cell::ConnectedBlank,
        ensures
            final(self).wf(),
            final(self).prng == old(self).prng,
            final(self).map.size == old(self).map.size,
            final(self).map.maze_seed == old(self).map.maze_seed,
            final(self).map.walls == old(self).map.walls,
            final(self).seeds == old(self).seeds,
            final(self).seed_amount == old(self).seed_amount,
            final(self).turn_threshold == old(self).turn_threshold,
            final(self).termination_threshold == old(self).termination_threshold,
            final(self).wall_wrapping == old(self).wall_wrapping,
            final(self).map.at(0, 0) == Cell::ConnectedBlank,
            forall|xx: u32, yy: u32|
                xx < old(self).map.size && yy < old(self).map.size && final(self).map.at(xx, yy)
                    != old(self).map.at(xx, yy) ==> final(self).map.at(xx, yy)
                    == Cell::ConnectedBlank && ((xx == 0 && yy == 0) || (old(self).map.at(0, 0)
                    == Cell::Blank && old(self).map.at(xx, yy) == Cell::Blank && blank_reachable(
                    old(self).map,
                    xx,
                    yy,
                ))),
            forall|xx: u32, yy: u32|
                xx < old(self).map.size && yy < old(self).map.size && old(self).map.at(0, 0)
                    == Cell::Blank && old(self).map.at(xx, yy) == Cell::Blank && blank_reachable(
                    old(self).map,
                    xx,
                    yy,
                ) ==> final(self).map.at(xx, yy) == Cell::ConnectedBlank,
            forall|xx: u32, yy: u32|
                xx < old(self).map.size && yy < old(self).map.size
                    && #[trigger] final(self).map.at(xx, yy) == Cell::ConnectedBlank
                    ==> cb_reachable(final(self).map, xx, yy),
            forall|cx: u32, cy: u32, nx: u32, ny: u32|
                old(self).map.at(0, 0) == Cell::Blank && cx < old(self).map.size && cy < old(
                    self,
                ).map.size && nx < old(self).map.size && ny < old(self).map.size
                    && #[trigger] final(self).map.at(cx, cy) == Cell::ConnectedBlank && adjacent(
                    cx,
                    cy,
                    nx,
                    ny,
                ) ==> #[trigger] final(self).map.at(nx, ny) != Cell::Blank,
    {
        let size = self.map.size;
        let ghost pre = self.map;
        let origin_was = self.map.get(0, 0);
        self.map.set(0, 0, Cell::ConnectedBlank);
        proof {
            let p0: Seq<(u32, u32)> = seq![(0u32, 0u32)];
            assert(p0.last() == (0u32, 0u32));
            assert(cb_path(self.map, p0));
            assert(cb_reachable(self.map, 0, 0));
            assert(blank_path(pre, p0));
            assert(blank_reachable(pre, 0, 0));
        }
        if origin_was != Cell::Blank {
            // a non-blank origin: the search ends before it begins
            proof {
                assert forall|xx: u32, yy: u32|
                    xx < size && yy < size && #[trigger] self.map.at(xx, yy)
                        == Cell::ConnectedBlank implies cb_reachable(self.map, xx, yy) by {
                    let p0: Seq<(u32, u32)> = seq![(0u32, 0u32)];
                    assert(p0.last() == (0u32, 0u32));
                    assert(cb_path(self.map, p0));
                }
            }
            return ;
        }
        let mut queue: Vec<(u32, u32)> = Vec::new();
        queue.push((0u32, 0u32));
        let mut head: usize = 0;
        while head < queue.len()
            invariant
                self.wf(),
                size == self.map.size,
                self.map.size == old(self).map.size,
                self.map.maze_seed == old(self).map.maze_seed,
                self.map.walls == old(self).map.walls,
                self.prng == old(self).prng,
                self.seeds == old(self).seeds,
                self.seed_amount == old(self).seed_amount,
                self.turn_threshold == old(self).turn_threshold,
                self.termination_threshold == old(self).termination_threshold,
                self.wall_wrapping == old(self).wall_wrapping,
                head <= queue@.len(),
                pre == old(self).map,
                self.map.at(0, 0) == Cell::ConnectedBlank,
                forall|j: int|
                    0 <= j < queue@.len() ==> (#[trigger] queue@[j]).0 < size && queue@[j].1 < size
                        && self.map.at(queue@[j].0, queue@[j].1) == Cell::ConnectedBlank,
                blank_reachable(pre, 0, 0),
                pre.at(0, 0) == Cell::Blank,
                forall|xx: u32, yy: u32| xx < size && yy < size ==> pre.at(xx, yy)
                    != Cell::ConnectedBlank,
                forall|xx: u32, yy: u32|
                    xx < size && yy < size && self.map.at(xx, yy) != pre.at(xx, yy) ==> self.map.at(
                        xx,
                        yy,
                    ) == Cell::ConnectedBlank && ((xx == 0 && yy == 0) || (pre.at(xx, yy)
                        == Cell::Blank && blank_reachable(pre, xx, yy))),
                forall|xx: u32, yy: u32|
                    xx < size && yy < size && #[trigger] self.map.at(xx, yy)
                        == Cell::ConnectedBlank ==> cb_reachable(self.map, xx, yy),
                forall|xx: u32, yy: u32|
                    xx < size && yy < size && self.map.at(xx, yy)
                        == Cell::ConnectedBlank ==> exists|j: int|
                        0 <= j < queue@.len() && #[trigger] queue@[j] == (xx, yy),
                forall|j: int, nx: u32, ny: u32|
                    0 <= j < head && nx < size && ny < size && adjacent(
                        (#[trigger] queue@[j]).0,
                        queue@[j].1,
                        nx,
                        ny,
                    ) ==> #[trigger] self.map.at(nx, ny) != Cell::Blank,
            decreases count_blank(self.map.cells@), queue@.len() - head,
        {
            let c = queue[head];
            let cx = c.0;
            let cy = c.1;
            proof {
                assert(self.map.at(cx, cy) != pre.at(cx, cy));
                assert(blank_reachable(pre, cx, cy));
            }
            let ghost m0 = self.map;
            let ghost q0 = queue@;
            let ghost h = head as int;
            bfs_visit(
                &mut self.map,
                &mut queue,
                cx,
                cy,
                cx.wrapping_sub(1),
                cy,
                Ghost(pre),
                Ghost(h),
            );
            let ghost m1 = self.map;
            bfs_visit(&mut self.map, &mut queue, cx, cy, cx + 1, cy, Ghost(pre), Ghost(h));
            let ghost m2 = self.map;
            bfs_visit(
                &mut self.map,
                &mut queue,
                cx,
                cy,
                cx,
                cy.wrapping_sub(1),
                Ghost(pre),
                Ghost(h),
            );
            let ghost m3 = self.map;
            bfs_visit(&mut self.map, &mut queue, cx, cy, cx, cy + 1, Ghost(pre), Ghost(h));
            head = head + 1;
            proof {
                assert forall|j: int, nx: u32, ny: u32|
                    0 <= j < head && nx < size && ny < size && adjacent(
                        (#[trigger] queue@[j]).0,
                        queue@[j].1,
                        nx,
                        ny,
                    ) implies #[trigger] self.map.at(nx, ny) != Cell::Blank by {
                    if j == head - 1 {
                        assert(queue@[j] == (cx, cy));
                        if ny == cy {
                            if nx < cx {
                                assert(nx == cx.wrapping_sub(1) as u32);
                                assert(m1.at(nx, ny) != Cell::Blank);
                            } else {
                                assert(nx == cx + 1);
                                assert(m2.at(nx, ny) != Cell::Blank);
                            }
                        } else {
                            if ny < cy {
                                assert(ny == cy.wrapping_sub(1) as u32);
                                assert(m3.at(nx, ny) != Cell::Blank);
                            } else {
                                assert(ny == cy + 1);
                                assert(self.map.at(nx, ny) != Cell::Blank);
                            }
                        }
                    } else {
                        assert(m0.at(nx, ny) != Cell::Blank);
                    }
                }
            }
        }
        proof {
            assert forall|cx: u32, cy: u32, nx: u32, ny: u32|
                cx < size && cy < size && nx < size && ny < size && #[trigger] self.map.at(cx, cy)
                    == Cell::ConnectedBlank && adjacent(cx, cy, nx, ny) implies #[trigger] self.map.at(
                nx,
                ny,
            ) != Cell::Blank by {
                let j = choose|j: int| 0 <= j < queue@.len() && #[trigger] queue@[j] == (cx, cy);
                assert(0 <= j < head);
            }
            assert forall|xx: u32, yy: u32|
                xx < size && yy < size && pre.at(xx, yy) == Cell::Blank && blank_reachable(
                pre,
                xx,
                yy,
            ) implies self.map.at(xx, yy) == Cell::ConnectedBlank by {
                let p = choose|p: Seq<(u32, u32)>| blank_path(pre, p) && p.last() == (xx, yy);
                lemma_blank_path_marked(pre, self.map, p);
            }
        }
    }

    /// Runs the whole pipeline in order: seed placement, growth, sprinkle,
    /// flood fill, the closure that turns unreached pockets into wall, and
    /// the rectangle coloring.  Afterwards every cell is `ConnectedBlank`
    /// or `Colored`, a cell carries color `i` exactly when recorded
    /// rectangle `i` covers it, and no two rectangles share a cell.
    #[verifier::rlimit(100)]
    #[verifier::spinoff_prover]
    pub fn init(&mut self)
        requires
            old(self).wf(),
            old(self).map.walls@.len() == 0,
            old(self).seeds@.len() == 0,
            forall|x: u32, y: u32|
                x < old(self).map.size && y < old(self).map.size ==> old(self).map.at(x, y)
                    == Cell::Blank || old(self).map.at(x, y) == Cell::Filled,
        ensures
            final(self).wf(),
            final(self).map.size == old(self).map.size,
            final(self).map.maze_seed == old(self).map.maze_seed,
            forall|x: u32, y: u32|
                x < old(self).map.size && y < old(self).map.size ==> final(self).map.at(x, y)
                    == Cell::ConnectedBlank || final(self).map.at(x, y) is Colored,
            final(self).map.at(0, 0) == Cell::ConnectedBlank,
            forall|x: u32, y: u32|
                x < old(self).map.size && y < old(self).map.size
                    && #[trigger] final(self).map.at(x, y) == Cell::ConnectedBlank
                    ==> cb_reachable(final(self).map, x, y),
            forall|x: u32, y: u32|
                x < old(self).map.size && y < old(self).map.size
                    && #[trigger] final(self).map.at(x, y) is Colored ==> (color_of(final(self).map.at(x, y)) as int) < final(self).map.walls@.len() && crate::grid::wall_covers(
                    final(self).map.walls@[color_of(final(self).map.at(x, y)) as int],
                    x,
                    y,
                ),
            forall|i: int, x: u32, y: u32|
                0 <= i < final(self).map.walls@.len() && #[trigger] crate::grid::wall_covers(
                    final(self).map.walls@[i],
                    x,
                    y,
                ) ==> x < old(self).map.size && y < old(self).map.size && final(self).map.at(x, y)
                    == Cell::Colored(i as u32),
            forall|i: int, j: int, x: u32, y: u32|
                0 <= i < j < final(self).map.walls@.len() ==> !(#[trigger] crate::grid::wall_covers(
                    final(self).map.walls@[i],
                    x,
                    y,
                ) && #[trigger] crate::grid::wall_covers(final(self).map.walls@[j], x, y)),
    {
        let ghost size = self.map.size;
        self.seed_walls();
        self.grow_walls();
        self.sprinkle_walls();
        proof {
            assert forall|x: u32, y: u32| x < size && y < size implies self.map.at(x, y)
                != Cell::ConnectedBlank by {
                if self.map.at(x, y) != old(self).map.at(x, y) {
                }
            }
        }
        self.find_pockets();
        let ghost after_fill = self.map;
        self.map.replace(Cell::Blank, Cell::Filled);
        proof {
            assert forall|x: u32, y: u32| x < size && y < size implies !(self.map.at(x, y)
                is Colored) by {
                if after_fill.at(x, y) != old(self).map.at(x, y) {
                }
            }
        }
        self.map.combine();
        proof {
            assert forall|x: u32, y: u32|
                x < size && y < size && #[trigger] self.map.at(x, y)
                    == Cell::ConnectedBlank implies cb_reachable(self.map, x, y) by {
                assert(after_fill.at(x, y) == Cell::ConnectedBlank);
                let p = choose|p: Seq<(u32, u32)>| cb_path(after_fill, p) && p.last() == (x, y);
                lemma_cb_path_monotone(after_fill, self.map, p);
            }
        }
    }
}

} // verus!
