//! The square cell buffer: addressed access, bulk replacement, and the
//! greedy pass that partitions wall cells into colored axis-aligned
//! rectangles.

use vstd::prelude::*;

verus! {

/// One grid position: untouched open space, open space reached from the
/// origin, an uncolored wall, or a wall assigned to a rectangle.
#[derive(Clone, Copy, Debug, PartialEq, Eq, Structural)]
pub enum Cell {
    Blank,
    ConnectedBlank,
    Filled,
    Colored(u32),
}

/// A maximal axis-aligned rectangle of wall cells found by the coloring
/// pass.
#[derive(Clone, Copy, Debug, PartialEq, Eq, Structural)]
pub struct Wall {
    pub x: u32,
    pub y: u32,
    pub width: u32,
    pub height: u32,
}

/// The color index a cell carries (zero for a cell of another kind).
pub open spec fn color_of(c: Cell) -> u32 {
    match c {
        Cell::Colored(i) => i,
        _ => 0u32,
    }
}

/// Whether `(x, y)` lies inside the rectangle `w`.
pub open spec fn wall_covers(w: Wall, x: u32, y: u32) -> bool {
    &&& w.x <= x
    &&& (x as int) < w.x + w.width
    &&& w.y <= y
    &&& (y as int) < w.y + w.height
}

/// The row-major buffer of a square grid, with the seed it was built from
/// and the rectangles extracted by the coloring pass.
pub struct SquareMap {
    pub size: u32,
    pub cells: Vec<Cell>,
    pub maze_seed: u64,
    pub walls: Vec<Wall>,
}

/// The cell stored at `(x, y)` in a row-major buffer of width `size`.
pub open spec fn cell_at(cells: Seq<Cell>, size: u32, x: u32, y: u32) -> Cell {
    cells[y as int * size as int + x as int]
}

/// The buffer with the cell at `(x, y)` rewritten as `v`.
pub open spec fn put_cell(cells: Seq<Cell>, size: u32, x: u32, y: u32, v: Cell) -> Seq<Cell> {
    cells.update(y as int * size as int + x as int, v)
}

/// Whether the whole row segment `[x, x+w) x {yy}` is `Filled`.
pub open spec fn seg_filled(cells: Seq<Cell>, size: u32, x: u32, w: u32, yy: u32) -> bool {
    forall|i: u32|
        x <= i && (i as int) < x as int + w as int ==> cell_at(cells, size, i, yy) == Cell::Filled
}

/// The row segment colored cell by cell from offset `i` on.
pub open spec fn color_row_upto(
    cells: Seq<Cell>,
    size: u32,
    x: u32,
    w: u32,
    yy: u32,
    color: u32,
    i: nat,
) -> Seq<Cell>
    decreases w - i,
{
    if i >= w {
        cells
    } else {
        color_row_upto(
            put_cell(cells, size, (x + i) as u32, yy, Cell::Colored(color)),
            size,
            x,
            w,
            yy,
            color,
            i + 1,
        )
    }
}

/// Greedy width growth: the rectangle's top row extends right, coloring as
/// it goes, while the next cell of the row stays `Filled`.
pub open spec fn grow_width_model(
    cells: Seq<Cell>,
    size: u32,
    x: u32,
    y: u32,
    w: u32,
    color: u32,
) -> (Seq<Cell>, u32)
    decreases size - x - w,
{
    if x as int + w as int >= size || cell_at(cells, size, (x + w) as u32, y) != Cell::Filled {
        (cells, w)
    } else {
        grow_width_model(
            put_cell(cells, size, (x + w) as u32, y, Cell::Colored(color)),
            size,
            x,
            y,
            (w + 1) as u32,
            color,
        )
    }
}

/// Greedy height growth: whole further rows of the current width are
/// colored while they stay entirely `Filled`.
pub open spec fn grow_height_model(
    cells: Seq<Cell>,
    size: u32,
    x: u32,
    y: u32,
    w: u32,
    h: u32,
    color: u32,
) -> (Seq<Cell>, u32)
    decreases size - y - h,
{
    if y as int + h as int >= size || !seg_filled(cells, size, x, w, (y + h) as u32) {
        (cells, h)
    } else {
        grow_height_model(
            color_row_upto(cells, size, x, w, (y + h) as u32, color, 0),
            size,
            x,
            y,
            w,
            (h + 1) as u32,
            color,
        )
    }
}

/// One rectangle of the coloring pass: the corner takes the color, the top
/// row grows right, then full-width rows grow down.
pub open spec fn rect_model(cells: Seq<Cell>, size: u32, x: u32, y: u32, color: u32) -> (
    Seq<Cell>,
    Wall,
) {
    let ww = grow_width_model(put_cell(cells, size, x, y, Cell::Colored(color)), size, x, y, 1, color);
    let hh = grow_height_model(ww.0, size, x, y, ww.1, 1, color);
    (hh.0, Wall { x, y, width: ww.1, height: hh.1 })
}

/// The whole coloring pass from scan position `(x, y)` on, in row-major
/// order: each still-`Filled` cell met becomes the corner of the next
/// rectangle, whose color is the number of rectangles recorded so far.
pub open spec fn scan_model(cells: Seq<Cell>, walls: Seq<Wall>, size: u32, x: u32, y: u32) -> (
    Seq<Cell>,
    Seq<Wall>,
)
    decreases size - y, size - x,
{
    if y >= size {
        (cells, walls)
    } else if x >= size {
        scan_model(cells, walls, size, 0, (y + 1) as u32)
    } else if cell_at(cells, size, x, y) != Cell::Filled {
        scan_model(cells, walls, size, (x + 1) as u32, y)
    } else {
        let r = rect_model(cells, size, x, y, walls.len() as u32);
        scan_model(r.0, walls.push(r.1), size, (x + 1) as u32, y)
    }
}

impl SquareMap {
    /// The buffer holds exactly `size * size` cells, and the side length is
    /// small enough that a cell count and a color index fit their types.
    pub open spec fn wf(&self) -> bool {
        &&& 1 <= self.size <= 65535
        &&& self.cells.len() == self.size as int * self.size as int
    }

    /// The cell of this grid at `(x, y)`.
    pub open spec fn at(&self, x: u32, y: u32) -> Cell {
        cell_at(self.cells@, self.size, x, y)
    }

    pub fn new(size: u32, maze_seed: u64) -> (r: Self)
        requires
            1 <= size <= 65535,
        ensures
            r.wf(),
            r.size == size,
            r.maze_seed == maze_seed,
            r.walls@.len() == 0,
            forall|x: u32, y: u32| x < size && y < size ==> r.at(x, y) == Cell::Blank,
    {
        proof {
            assert(size as int * size as int <= 0xfffe0001) by (nonlinear_arith)
                requires
                    size <= 65535,
            ;
        }
        let n: usize = size as usize * size as usize;
        let mut cells: Vec<Cell> = Vec::new();
        let mut i: usize = 0;
        while i < n
            invariant
                i <= n,
                cells.len() == i,
                forall|j: int| 0 <= j < i ==> cells[j] == Cell::Blank,
            decreases n - i,
        {
            cells.push(Cell::Blank);
            i = i + 1;
        }
        proof {
            assert forall|x: u32, y: u32| x < size && y < size implies #[trigger] cell_at(
                cells@,
                size,
                x,
                y,
            ) == Cell::Blank by {
                index_bound(size, x, y);
            }
        }
        let walls: Vec<Wall> = Vec::new();
        SquareMap { size, cells, maze_seed, walls }
    }

    pub fn get(&mut self, x: u32, y: u32) -> (r: Cell)
        requires
            old(self).wf(),
            x < old(self).size,
            y < old(self).size,
        ensures
            *final(self) == *old(self),
            r == old(self).at(x, y),
    {
        proof {
            index_bound(self.size, x, y);
        }
        self.cells[y as usize * self.size as usize + x as usize]
    }

    pub fn set(&mut self, x: u32, y: u32, value: Cell) -> (r: ())
        requires
            old(self).wf(),
            x < old(self).size,
            y < old(self).size,
        ensures
            final(self).wf(),
            final(self).size == old(self).size,
            final(self).maze_seed == old(self).maze_seed,
            final(self).walls == old(self).walls,
            final(self).at(x, y) == value,
            final(self).cells@ == old(self).cells@.update(
                y as int * old(self).size as int + x as int,
                value,
            ),
            forall|xx: u32, yy: u32|
                xx < old(self).size && yy < old(self).size && !(xx == x && yy == y)
                    ==> final(self).at(xx, yy) == old(self).at(xx, yy),
    {
        proof {
            index_bound(self.size, x, y);
        }
        let i: usize = y as usize * self.size as usize + x as usize;
        self.cells.set(i, value);
        proof {
            assert forall|xx: u32, yy: u32|
                xx < old(self).size && yy < old(self).size && !(xx == x && yy == y) implies self.at(
                xx,
                yy,
            ) == old(self).at(xx, yy) by {
                index_bound(self.size, xx, yy);
                distinct_index(self.size, xx, yy, x, y);
            }
        }
    }

    /// Whether every cell of the row segment `[x, x+w) x {yy}` is `Filled`.
    fn row_filled(&mut self, x: u32, w: u32, yy: u32) -> (b: bool)
        requires
            old(self).wf(),
            x as int + w as int <= old(self).size,
            yy < old(self).size,
        ensures
            *final(self) == *old(self),
            b <==> forall|xx: u32|
                x <= xx && (xx as int) < x as int + w as int ==> old(self).at(xx, yy)
                    == Cell::Filled,
    {
        let mut i: u32 = 0;
        while i < w
            invariant
                old(self).wf(),
                *self == *old(self),
                i <= w,
                x as int + w as int <= old(self).size,
                yy < old(self).size,
                forall|xx: u32|
                    x <= xx && (xx as int) < x as int + i as int ==> old(self).at(xx, yy)
                        == Cell::Filled,
            decreases w - i,
        {
            if self.get(x + i, yy) != Cell::Filled {
                return false;
            }
            i = i + 1;
        }
        true
    }

    /// Scans the grid in row-major order; each wall cell still `Filled`
    /// becomes the top-left corner of a new rectangle, grown greedily first
    /// rightward and then downward, whose cells all take the next color.
    /// Afterwards no cell is `Filled`, a cell carries color `i` exactly when
    /// recorded rectangle `i` covers it, and the rectangles are disjoint.
    pub fn combine(&mut self) -> (r: ())
        requires
            old(self).wf(),
            old(self).walls@.len() == 0,
            forall|x: u32, y: u32|
                x < old(self).size && y < old(self).size ==> !(old(self).at(x, y) is Colored),
        ensures
            final(self).wf(),
            final(self).size == old(self).size,
            final(self).maze_seed == old(self).maze_seed,
            forall|x: u32, y: u32|
                x < old(self).size && y < old(self).size && old(self).at(x, y) != Cell::Filled
                    ==> final(self).at(x, y) == old(self).at(x, y),
            forall|x: u32, y: u32|
                x < old(self).size && y < old(self).size ==> final(self).at(x, y) != Cell::Filled,
            forall|x: u32, y: u32|
                x < old(self).size && y < old(self).size && old(self).at(x, y) == Cell::Filled
                    ==> final(self).at(x, y) is Colored,
            forall|x: u32, y: u32|
                x < old(self).size && y < old(self).size && #[trigger] final(self).at(x, y)
                    is Colored ==> (color_of(final(self).at(x, y)) as int)
                    < final(self).walls@.len() && wall_covers(
                    final(self).walls@[color_of(final(self).at(x, y)) as int],
                    x,
                    y,
                ),
            forall|i: int, x: u32, y: u32|
                0 <= i < final(self).walls@.len() && #[trigger] wall_covers(
                    final(self).walls@[i],
                    x,
                    y,
                ) ==> x < old(self).size && y < old(self).size && old(self).at(x, y)
                    == Cell::Filled && final(self).at(x, y) == Cell::Colored(i as u32),
            forall|i: int, j: int, x: u32, y: u32|
                0 <= i < j < final(self).walls@.len() ==> !(#[trigger] wall_covers(
                    final(self).walls@[i],
                    x,
                    y,
                ) && #[trigger] wall_covers(final(self).walls@[j], x, y)),
            forall|i: int|
                0 <= i < final(self).walls@.len() ==> (#[trigger] final(self).walls@[i]).width >= 1
                    && final(self).walls@[i].height >= 1,
            forall|i: int, j: int|
                0 <= i < j < final(self).walls@.len() ==> (#[trigger] final(self).walls@[i]).y < (
                #[trigger] final(self).walls@[j]).y || (final(self).walls@[i].y
                    == final(self).walls@[j].y && final(self).walls@[i].x
                    < final(self).walls@[j].x),
            (final(self).cells@, final(self).walls@) == scan_model(
                old(self).cells@,
                old(self).walls@,
                old(self).size,
                0,
                0,
            ),
    {
        let size = self.size;
        let mut current_color: u32 = 0;
        let mut y: u32 = 0;
        while y < size
            invariant
                self.wf(),
                self.size == old(self).size,
                self.size == size,
                self.maze_seed == old(self).maze_seed,
                y <= size,
                current_color == self.walls@.len(),
                self.walls@.len() <= y as int * size as int,
                forall|i: int|
                    0 <= i < self.walls@.len() ==> (#[trigger] self.walls@[i]).width >= 1
                        && self.walls@[i].height >= 1 && self.walls@[i].y < y && self.walls@[i].x
                        < size,
                forall|i: int, j: int|
                    0 <= i < j < self.walls@.len() ==> (#[trigger] self.walls@[i]).y < (
                    #[trigger] self.walls@[j]).y || (self.walls@[i].y == self.walls@[j].y
                        && self.walls@[i].x < self.walls@[j].x),
                scan_model(self.cells@, self.walls@, size, 0, y) == scan_model(
                    old(self).cells@,
                    old(self).walls@,
                    size,
                    0,
                    0,
                ),
                forall|xx: u32, yy: u32|
                    xx < size && yy < size && old(self).at(xx, yy) != Cell::Filled ==> self.at(
                        xx,
                        yy,
                    ) == old(self).at(xx, yy),
                forall|xx: u32, yy: u32|
                    xx < size && yy < size && old(self).at(xx, yy) == Cell::Filled ==> (self.at(
                        xx,
                        yy,
                    ) == Cell::Filled || self.at(xx, yy) is Colored),
                forall|xx: u32, yy: u32|
                    xx < size && yy < size && #[trigger] self.at(xx, yy) is Colored ==> (color_of(
                        self.at(xx, yy),
                    ) as int) < self.walls@.len() && wall_covers(
                        self.walls@[color_of(self.at(xx, yy)) as int],
                        xx,
                        yy,
                    ),
                forall|i: int, xx: u32, yy: u32|
                    0 <= i < self.walls@.len() && #[trigger] wall_covers(self.walls@[i], xx, yy)
                        ==> xx < size && yy < size && old(self).at(xx, yy) == Cell::Filled
                        && self.at(xx, yy) == Cell::Colored(i as u32),
                forall|xx: u32, yy: u32|
                    yy < y && xx < size ==> self.at(xx, yy) != Cell::Filled,
            decreases size - y,
        {
            let mut x: u32 = 0;
            while x < size
                invariant
                    self.wf(),
                    self.size == old(self).size,
                    self.size == size,
                    self.maze_seed == old(self).maze_seed,
                    y < size,
                    x <= size,
                    current_color == self.walls@.len(),
                    self.walls@.len() <= y as int * size as int + x as int,
                    forall|i: int|
                        0 <= i < self.walls@.len() ==> (#[trigger] self.walls@[i]).width >= 1
                            && self.walls@[i].height >= 1 && self.walls@[i].x < size && (
                        self.walls@[i].y < y || (self.walls@[i].y == y && self.walls@[i].x < x)),
                    forall|i: int, j: int|
                        0 <= i < j < self.walls@.len() ==> (#[trigger] self.walls@[i]).y < (
                        #[trigger] self.walls@[j]).y || (self.walls@[i].y == self.walls@[j].y
                            && self.walls@[i].x < self.walls@[j].x),
                    scan_model(self.cells@, self.walls@, size, x, y) == scan_model(
                        old(self).cells@,
                        old(self).walls@,
                        size,
                        0,
                        0,
                    ),
                    forall|xx: u32, yy: u32|
                        xx < size && yy < size && old(self).at(xx, yy) != Cell::Filled ==> self.at(
                            xx,
                            yy,
                        ) == old(self).at(xx, yy),
                    forall|xx: u32, yy: u32|
                        xx < size && yy < size && old(self).at(xx, yy) == Cell::Filled ==> (self.at(
                            xx,
                            yy,
                        ) == Cell::Filled || self.at(xx, yy) is Colored),
                    forall|xx: u32, yy: u32|
                        xx < size && yy < size && #[trigger] self.at(xx, yy) is Colored ==> (
                        color_of(self.at(xx, yy)) as int) < self.walls@.len() && wall_covers(
                            self.walls@[color_of(self.at(xx, yy)) as int],
                            xx,
                            yy,
                        ),
                    forall|i: int, xx: u32, yy: u32|
                        0 <= i < self.walls@.len() && #[trigger] wall_covers(self.walls@[i], xx, yy)
                            ==> xx < size && yy < size && old(self).at(xx, yy) == Cell::Filled
                            && self.at(xx, yy) == Cell::Colored(i as u32),
                    forall|xx: u32, yy: u32|
                        (yy < y || (yy == y && xx < x)) && xx < size && yy < size ==> self.at(
                            xx,
                            yy,
                        ) != Cell::Filled,
                decreases size - x,
            {
                let ghost sc_cells = self.cells@;
                let ghost sc_walls = self.walls@;
                if self.get(x, y) == Cell::Filled {
                    proof {
                        assert(self.walls@.len() < 0xfffe0001) by (nonlinear_arith)
                            requires
                                self.walls@.len() <= y as int * size as int + x as int,
                                x < size,
                                y < size,
                                size <= 65535,
                        ;
                    }
                    let ghost col = current_color;
                    self.color_rectangle(x, y, current_color, Ghost(*old(self)));
                    current_color = current_color + 1;
                    proof {
                        assert(sc_walls.len() as u32 == col);
                        assert(self.cells@ == rect_model(sc_cells, size, x, y, col).0);
                        assert(self.walls@.last() == rect_model(sc_cells, size, x, y, col).1);
                        assert((self.cells@, self.walls@.last()) == rect_model(
                            sc_cells,
                            size,
                            x,
                            y,
                            col,
                        ));
                        assert(self.walls@ == sc_walls.push(self.walls@.last()));
                        assert(scan_model(sc_cells, sc_walls, size, x, y) == scan_model(
                            self.cells@,
                            self.walls@,
                            size,
                            (x + 1) as u32,
                            y,
                        ));
                    }
                } else {
                    proof {
                        assert(scan_model(sc_cells, sc_walls, size, x, y) == scan_model(
                            self.cells@,
                            self.walls@,
                            size,
                            (x + 1) as u32,
                            y,
                        ));
                    }
                }
                x = x + 1;
            }
            proof {
                assert(scan_model(self.cells@, self.walls@, size, x, y) == scan_model(
                    self.cells@,
                    self.walls@,
                    size,
                    0,
                    (y + 1) as u32,
                ));
            }
            y = y + 1;
            proof {
                assert(self.walls@.len() <= y as int * size as int) by (nonlinear_arith)
                    requires
                        self.walls@.len() <= (y as int - 1) * size as int + size as int,
                        y >= 1,
                ;
            }
        }
        proof {
            assert forall|i: int, j: int, xx: u32, yy: u32|
                0 <= i < j < self.walls@.len() implies !(#[trigger] wall_covers(
                self.walls@[i],
                xx,
                yy,
            ) && #[trigger] wall_covers(self.walls@[j], xx, yy)) by {
                if wall_covers(self.walls@[i], xx, yy) && wall_covers(self.walls@[j], xx, yy) {
                    assert(self.at(xx, yy) == Cell::Colored(i as u32));
                    assert(self.at(xx, yy) == Cell::Colored(j as u32));
                    assert(self.walls@.len() <= size as int * size as int);
                    assert(size as int * size as int <= 0xfffe0001) by (nonlinear_arith)
                        requires
                            size <= 65535,
                    ;
                }
            }
        }
    }

    /// Grows and colors one rectangle whose top-left corner is the still
    /// `Filled` cell `(x, y)`, and records it.  `pre` is the grid the whole
    /// coloring pass started from; the invariants of the scan are restated
    /// here over it.
    fn color_rectangle(&mut self, x: u32, y: u32, color: u32, pre: Ghost<SquareMap>)
        requires
            old(self).wf(),
            x < old(self).size,
            y < old(self).size,
            old(self).at(x, y) == Cell::Filled,
            color == old(self).walls@.len(),
            (color as int) < 0xfffe0001,
            pre@.size == old(self).size,
            forall|xx: u32, yy: u32|
                xx < old(self).size && yy < old(self).size && pre@.at(xx, yy) != Cell::Filled
                    ==> old(self).at(xx, yy) == pre@.at(xx, yy),
            forall|xx: u32, yy: u32|
                xx < old(self).size && yy < old(self).size && pre@.at(xx, yy) == Cell::Filled ==> (
                old(self).at(xx, yy) == Cell::Filled || old(self).at(xx, yy) is Colored),
            forall|xx: u32, yy: u32|
                xx < old(self).size && yy < old(self).size && #[trigger] old(self).at(xx, yy)
                    is Colored ==> (color_of(old(self).at(xx, yy)) as int)
                    < old(self).walls@.len() && wall_covers(
                    old(self).walls@[color_of(old(self).at(xx, yy)) as int],
                    xx,
                    yy,
                ),
            forall|i: int, xx: u32, yy: u32|
                0 <= i < old(self).walls@.len() && #[trigger] wall_covers(
                    old(self).walls@[i],
                    xx,
                    yy,
                ) ==> xx < old(self).size && yy < old(self).size && pre@.at(xx, yy) == Cell::Filled
                    && old(self).at(xx, yy) == Cell::Colored(i as u32),
        ensures
            final(self).wf(),
            final(self).size == old(self).size,
            final(self).maze_seed == old(self).maze_seed,
            final(self).walls@.len() == old(self).walls@.len() + 1,
            final(self).walls@ == old(self).walls@.push(final(self).walls@.last()),
            final(self).walls@.last().x == x,
            final(self).walls@.last().y == y,
            final(self).walls@.last().width >= 1,
            final(self).walls@.last().height >= 1,
            (final(self).cells@, final(self).walls@.last()) == rect_model(
                old(self).cells@,
                old(self).size,
                x,
                y,
                color,
            ),
            final(self).at(x, y) is Colored,
            forall|xx: u32, yy: u32|
                xx < old(self).size && yy < old(self).size && pre@.at(xx, yy) != Cell::Filled
                    ==> final(self).at(xx, yy) == pre@.at(xx, yy),
            forall|xx: u32, yy: u32|
                xx < old(self).size && yy < old(self).size && pre@.at(xx, yy) == Cell::Filled ==> (
                final(self).at(xx, yy) == Cell::Filled || final(self).at(xx, yy) is Colored),
            forall|xx: u32, yy: u32|
                xx < old(self).size && yy < old(self).size && #[trigger] final(self).at(xx, yy)
                    is Colored ==> (color_of(final(self).at(xx, yy)) as int)
                    < final(self).walls@.len() && wall_covers(
                    final(self).walls@[color_of(final(self).at(xx, yy)) as int],
                    xx,
                    yy,
                ),
            forall|i: int, xx: u32, yy: u32|
                0 <= i < final(self).walls@.len() && #[trigger] wall_covers(
                    final(self).walls@[i],
                    xx,
                    yy,
                ) ==> xx < old(self).size && yy < old(self).size && pre@.at(xx, yy) == Cell::Filled
                    && final(self).at(xx, yy) == Cell::Colored(i as u32),
            forall|xx: u32, yy: u32|
                xx < old(self).size && yy < old(self).size && old(self).at(xx, yy) != Cell::Filled
                    ==> final(self).at(xx, yy) == old(self).at(xx, yy),
    {
        let ghost mid = *old(self);
        let size = self.size;
        self.set(x, y, Cell::Colored(color));
        let ghost wbase = self.cells@;
        let mut wall = Wall { x, y, width: 1u32, height: 1u32 };
        loop
            invariant_except_break
                self.wf(),
                self.size == size,
                size == mid.size,
                self.maze_seed == mid.maze_seed,
                self.walls == mid.walls,
                x < size,
                y < size,
                wall.x == x,
                wall.y == y,
                wall.height == 1,
                wall.width >= 1,
                x as int + wall.width as int <= size,
                grow_width_model(self.cells@, size, x, y, wall.width, color) == grow_width_model(
                    wbase,
                    size,
                    x,
                    y,
                    1,
                    color,
                ),
                forall|xx: u32|
                    x <= xx && (xx as int) < x as int + wall.width as int ==> #[trigger] self.at(
                        xx,
                        y,
                    ) == Cell::Colored(color) && mid.at(xx, y) == Cell::Filled,
                forall|xx: u32, yy: u32|
                    xx < size && yy < size && !(yy == y && x <= xx && (xx as int) < x as int
                        + wall.width as int) ==> self.at(xx, yy) == mid.at(xx, yy),
            ensures
                self.wf(),
                self.size == size,
                self.maze_seed == mid.maze_seed,
                self.walls == mid.walls,
                wall.x == x,
                wall.y == y,
                wall.height == 1,
                wall.width >= 1,
                x as int + wall.width as int <= size,
                (self.cells@, wall.width) == grow_width_model(wbase, size, x, y, 1, color),
                forall|xx: u32|
                    x <= xx && (xx as int) < x as int + wall.width as int ==> #[trigger] self.at(
                        xx,
                        y,
                    ) == Cell::Colored(color) && mid.at(xx, y) == Cell::Filled,
                forall|xx: u32, yy: u32|
                    xx < size && yy < size && !(yy == y && x <= xx && (xx as int) < x as int
                        + wall.width as int) ==> self.at(xx, yy) == mid.at(xx, yy),
            decreases size - wall.width,
        {
            if x + wall.width >= size {
                proof {
                    assert(grow_width_model(self.cells@, size, x, y, wall.width, color) == (
                    self.cells@,
                    wall.width,
                    ));
                }
                break;
            }
            if self.get(x + wall.width, y) != Cell::Filled {
                proof {
                    assert(grow_width_model(self.cells@, size, x, y, wall.width, color) == (
                    self.cells@,
                    wall.width,
                    ));
                }
                break;
            }
            let ghost wprev = self.cells@;
            self.set(x + wall.width, y, Cell::Colored(color));
            wall.width = wall.width + 1;
            proof {
                assert(grow_width_model(wprev, size, x, y, (wall.width - 1) as u32, color)
                    == grow_width_model(self.cells@, size, x, y, wall.width, color));
            }
        }
        let ghost hbase = self.cells@;
        loop
            invariant_except_break
                self.wf(),
                self.size == size,
                size == mid.size,
                self.maze_seed == mid.maze_seed,
                self.walls == mid.walls,
                x < size,
                y < size,
                wall.x == x,
                wall.y == y,
                wall.width >= 1,
                wall.height >= 1,
                x as int + wall.width as int <= size,
                y as int + wall.height as int <= size,
                (hbase, wall.width) == grow_width_model(wbase, size, x, y, 1, color),
                grow_height_model(self.cells@, size, x, y, wall.width, wall.height, color)
                    == grow_height_model(hbase, size, x, y, wall.width, 1, color),
                forall|xx: u32, yy: u32|
                    x <= xx && (xx as int) < x as int + wall.width as int && y <= yy && (yy as int)
                        < y as int + wall.height as int ==> #[trigger] self.at(xx, yy)
                        == Cell::Colored(color) && mid.at(xx, yy) == Cell::Filled,
                forall|xx: u32, yy: u32|
                    xx < size && yy < size && !(x <= xx && (xx as int) < x as int
                        + wall.width as int && y <= yy && (yy as int) < y as int
                        + wall.height as int) ==> self.at(xx, yy) == mid.at(xx, yy),
            ensures
                self.wf(),
                self.size == size,
                self.maze_seed == mid.maze_seed,
                self.walls == mid.walls,
                wall.x == x,
                wall.y == y,
                wall.width >= 1,
                wall.height >= 1,
                x as int + wall.width as int <= size,
                y as int + wall.height as int <= size,
                (hbase, wall.width) == grow_width_model(wbase, size, x, y, 1, color),
                (self.cells@, wall.height) == grow_height_model(
                    hbase,
                    size,
                    x,
                    y,
                    wall.width,
                    1,
                    color,
                ),
                forall|xx: u32, yy: u32|
                    x <= xx && (xx as int) < x as int + wall.width as int && y <= yy && (yy as int)
                        < y as int + wall.height as int ==> #[trigger] self.at(xx, yy)
                        == Cell::Colored(color) && mid.at(xx, yy) == Cell::Filled,
                forall|xx: u32, yy: u32|
                    xx < size && yy < size && !(x <= xx && (xx as int) < x as int
                        + wall.width as int && y <= yy && (yy as int) < y as int
                        + wall.height as int) ==> self.at(xx, yy) == mid.at(xx, yy),
            decreases size - wall.height,
        {
            if y + wall.height >= size {
                proof {
                    assert(grow_height_model(self.cells@, size, x, y, wall.width, wall.height, color)
                        == (self.cells@, wall.height));
                }
                break;
            }
            let all = self.row_filled(x, wall.width, y + wall.height);
            if !all {
                proof {
                    if seg_filled(self.cells@, size, x, wall.width, (y + wall.height) as u32) {
                        assert forall|xx: u32|
                            x <= xx && (xx as int) < x as int
                                + wall.width as int implies #[trigger] self.at(
                            xx,
                            (y + wall.height) as u32,
                        ) == Cell::Filled by {
                            assert(cell_at(self.cells@, size, xx, (y + wall.height) as u32)
                                == Cell::Filled);
                        }
                        assert(false);
                    }
                    assert(grow_height_model(self.cells@, size, x, y, wall.width, wall.height, color)
                        == (self.cells@, wall.height));
                }
                break;
            }
            proof {
                assert forall|ii: u32|
                    x <= ii && (ii as int) < x as int + wall.width as int implies #[trigger] cell_at(
                    self.cells@,
                    size,
                    ii,
                    (y + wall.height) as u32,
                ) == Cell::Filled by {
                    assert(self.at(ii, (y + wall.height) as u32) == Cell::Filled);
                }
                assert(seg_filled(self.cells@, size, x, wall.width, (y + wall.height) as u32));
            }
            let ghost rbase = self.cells@;
            let mut i: u32 = 0;
            while i < wall.width
                invariant
                    self.wf(),
                    self.size == size,
                    size == mid.size,
                    self.maze_seed == mid.maze_seed,
                    self.walls == mid.walls,
                    x < size,
                    y < size,
                    i <= wall.width,
                    wall.x == x,
                    wall.y == y,
                    wall.width >= 1,
                    wall.height >= 1,
                    x as int + wall.width as int <= size,
                    y as int + wall.height as int + 1 <= size,
                    forall|xx: u32|
                        x <= xx && (xx as int) < x as int + wall.width as int ==> #[trigger] mid.at(
                            xx,
                            (y + wall.height) as u32,
                        ) == Cell::Filled,
                    forall|xx: u32, yy: u32|
                        x <= xx && (xx as int) < x as int + wall.width as int && y <= yy && (
                        yy as int) < y as int + wall.height as int ==> #[trigger] self.at(xx, yy)
                            == Cell::Colored(color) && mid.at(xx, yy) == Cell::Filled,
                    forall|xx: u32|
                        x <= xx && (xx as int) < x as int + i as int ==> #[trigger] self.at(
                            xx,
                            (y + wall.height) as u32,
                        ) == Cell::Colored(color),
                    forall|xx: u32, yy: u32|
                        xx < size && yy < size && !(x <= xx && (xx as int) < x as int
                            + wall.width as int && y <= yy && (yy as int) < y as int
                            + wall.height as int) && !(yy == y + wall.height && x <= xx && (
                        xx as int) < x as int + i as int) ==> self.at(xx, yy) == mid.at(xx, yy),
                    color_row_upto(
                        self.cells@,
                        size,
                        x,
                        wall.width,
                        (y + wall.height) as u32,
                        color,
                        i as nat,
                    ) == color_row_upto(
                        rbase,
                        size,
                        x,
                        wall.width,
                        (y + wall.height) as u32,
                        color,
                        0,
                    ),
                decreases wall.width - i,
            {
                let ghost rprev = self.cells@;
                self.set(x + i, y + wall.height, Cell::Colored(color));
                i = i + 1;
                proof {
                    assert(color_row_upto(
                        rprev,
                        size,
                        x,
                        wall.width,
                        (y + wall.height) as u32,
                        color,
                        (i - 1) as nat,
                    ) == color_row_upto(
                        self.cells@,
                        size,
                        x,
                        wall.width,
                        (y + wall.height) as u32,
                        color,
                        i as nat,
                    ));
                }
            }
            proof {
                assert(grow_height_model(rbase, size, x, y, wall.width, wall.height, color)
                    == grow_height_model(
                    self.cells@,
                    size,
                    x,
                    y,
                    wall.width,
                    (wall.height + 1) as u32,
                    color,
                ));
            }
            wall.height = wall.height + 1;
        }
        self.walls.push(wall);
        proof {
            assert(wbase == put_cell(mid.cells@, size, x, y, Cell::Colored(color)));
            assert(grow_width_model(wbase, size, x, y, 1, color) == (hbase, wall.width));
            assert(grow_height_model(hbase, size, x, y, wall.width, 1, color) == (
            self.cells@,
            wall.height,
            ));
            assert(wall == Wall { x, y, width: wall.width, height: wall.height });
            assert((self.cells@, wall) == rect_model(mid.cells@, size, x, y, color));
            assert forall|xx: u32, yy: u32|
                xx < size && yy < size && #[trigger] self.at(xx, yy) is Colored implies (color_of(
                self.at(xx, yy),
            ) as int) < self.walls@.len() && wall_covers(
                self.walls@[color_of(self.at(xx, yy)) as int],
                xx,
                yy,
            ) by {
                if x <= xx && (xx as int) < x as int + wall.width as int && y <= yy && (yy as int)
                    < y as int + wall.height as int {
                    assert(wall_covers(wall, xx, yy));
                    assert(self.at(xx, yy) == Cell::Colored(color));
                } else {
                    assert(self.at(xx, yy) == mid.at(xx, yy));
                }
            }
            assert forall|i: int, xx: u32, yy: u32|
                0 <= i < self.walls@.len() && #[trigger] wall_covers(
                self.walls@[i],
                xx,
                yy,
            ) implies xx < size && yy < size && pre@.at(xx, yy) == Cell::Filled && self.at(xx, yy)
                == Cell::Colored(i as u32) by {
                if i < mid.walls@.len() {
                    assert(mid.at(xx, yy) == Cell::Colored(i as u32));
                    assert(!(x <= xx && (xx as int) < x as int + wall.width as int && y <= yy && (
                    yy as int) < y as int + wall.height as int));
                } else {
                    assert(self.walls@[i] == wall);
                    assert(self.at(xx, yy) == Cell::Colored(color));
                }
            }
        }
    }

    /// Rewrites every cell equal to `value` as `with`.
    pub fn replace(&mut self, value: Cell, with: Cell) -> (r: ())
        requires
            old(self).wf(),
        ensures
            final(self).wf(),
            final(self).size == old(self).size,
            final(self).maze_seed == old(self).maze_seed,
            final(self).walls == old(self).walls,
            forall|x: u32, y: u32|
                x < old(self).size && y < old(self).size ==> final(self).at(x, y) == (
                if old(self).at(x, y) == value {
                    with
                } else {
                    old(self).at(x, y)
                }),
    {
        let n: usize = self.cells.len();
        let mut i: usize = 0;
        while i < n
            invariant
                i <= n,
                n == self.cells.len(),
                self.wf(),
                self.size == old(self).size,
                self.maze_seed == old(self).maze_seed,
                self.walls == old(self).walls,
                forall|j: int|
                    0 <= j < i ==> self.cells[j] == (if old(self).cells[j] == value {
                        with
                    } else {
                        old(self).cells[j]
                    }),
                forall|j: int| i <= j < n ==> self.cells[j] == old(self).cells[j],
            decreases n - i,
        {
            if self.cells[i] == value {
                self.cells.set(i, with);
            }
            i = i + 1;
        }
        proof {
            assert forall|x: u32, y: u32| x < old(self).size && y < old(self).size implies #[trigger] self.at(x, y) == (
            if old(self).at(x, y) == value {
                with
            } else {
                old(self).at(x, y)
            }) by {
                index_bound(self.size, x, y);
            }
        }
    }
}

/// A row-major index of an in-bounds position lies inside the buffer, and
/// the buffer length fits comfortably below the pointer-size limit.
pub(crate) proof fn index_bound(size: u32, x: u32, y: u32)
    by (nonlinear_arith)
    requires
        x < size,
        y < size,
        size <= 65535,
    ensures
        0 <= y as int * size as int + x as int,
        (y as int * size as int + x as int) < size as int * size as int,
        size as int * size as int <= 0xfffe0001,
{
}

/// Distinct in-bounds positions map to distinct row-major indices.
proof fn distinct_index(size: u32, x1: u32, y1: u32, x2: u32, y2: u32)
    requires
        x1 < size,
        y1 < size,
        x2 < size,
        y2 < size,
        !(x1 == x2 && y1 == y2),
    ensures
        y1 as int * size as int + x1 != y2 as int * size as int + x2,
{
    if y1 != y2 {
        assert(y1 as int * size as int + x1 != y2 as int * size as int + x2) by (nonlinear_arith)
            requires
                y1 != y2,
                x1 < size,
                x2 < size,
        ;
    }
}

} // verus!
