use vstd::prelude::*;

use crate::point::Point;

verus! {

/// A 2D grid of cells backed by a 1D row-major vector of `bool`s,
/// where `true` means the cell is blocked and `false` means it is walkable.
///
/// The cell count is bounded by `isize::MAX` so that row-major indices and
/// path costs derived from the grid can never overflow.
#[derive(Debug, Clone)]
pub struct Grid {
    width: usize,
    height: usize,
    nodes: Vec<bool>,
}

/// The blocked flag that row `yy` of row-major source data assigns to column
/// `xx`: cells beyond a short row's length count as blocked.
pub open spec fn src_cell(rows: Seq<Vec<bool>>, yy: int, xx: int) -> bool {
    if xx < rows[yy]@.len() {
        rows[yy]@[xx]
    } else {
        true
    }
}

/// A row-major index formed from a row below `y` and a column below `w` lies
/// below `y * w`.
proof fn lemma_row_major_bound(yy: int, xx: int, y: int, w: int)
    requires
        0 <= yy < y,
        0 <= xx < w,
    ensures
        0 <= yy * w + xx < y * w,
{
    assert(0 <= yy * w + xx < y * w) by (nonlinear_arith)
        requires
            0 <= yy < y,
            0 <= xx < w,
    ;
}

impl Grid {
    /// The grid's width, as a mathematical integer.
    pub closed spec fn spec_width(&self) -> int {
        self.width as int
    }

    /// The grid's height, as a mathematical integer.
    pub closed spec fn spec_height(&self) -> int {
        self.height as int
    }

    /// The backing row-major sequence of blocked flags.
    pub closed spec fn cells(&self) -> Seq<bool> {
        self.nodes@
    }

    /// Well-formedness: the backing vector covers exactly `width * height`
    /// cells, and the cell count fits in `isize`.
    pub open spec fn wf(&self) -> bool {
        &&& self.cells().len() == self.spec_width() * self.spec_height()
        &&& self.spec_width() * self.spec_height() <= isize::MAX as int
    }

    /// Whether (x, y) lies inside the grid.
    pub open spec fn in_bounds(&self, x: int, y: int) -> bool {
        0 <= x < self.spec_width() && 0 <= y < self.spec_height()
    }

    /// The blocked flag of the in-bounds cell (x, y).
    pub open spec fn cell(&self, x: int, y: int) -> bool {
        self.cells()[y * self.spec_width() + x]
    }

    /// Whether `p` is an in-bounds, unblocked cell. Out-of-bounds points are
    /// never walkable. This predicate is the single source of truth the
    /// search engine uses to admit neighbours.
    pub open spec fn walkable(&self, p: Point) -> bool {
        self.in_bounds(p.x as int, p.y as int) && !self.cell(p.x as int, p.y as int)
    }

    /// The row-major index of an in-bounds cell lies within the cell count.
    pub proof fn lemma_index_bounds(&self, x: int, y: int)
        requires
            self.in_bounds(x, y),
        ensures
            0 <= y * self.spec_width() + x < self.spec_width() * self.spec_height(),
    {
        let w = self.spec_width();
        let h = self.spec_height();
        assert(0 <= x < w && 0 <= y < h ==> 0 <= y * w + x < w * h) by (nonlinear_arith);
    }

    /// Distinct in-bounds cells have distinct row-major indices.
    pub proof fn lemma_index_injective(&self, x1: int, y1: int, x2: int, y2: int)
        requires
            self.in_bounds(x1, y1),
            self.in_bounds(x2, y2),
            y1 * self.spec_width() + x1 == y2 * self.spec_width() + x2,
        ensures
            x1 == x2 && y1 == y2,
    {
        let w = self.spec_width();
        assert((0 <= x1 < w && 0 <= x2 < w && y1 * w + x1 == y2 * w + x2) ==> (x1 == x2 && y1
            == y2)) by (nonlinear_arith);
    }

    /// Builds a grid of the given dimensions with every cell walkable.
    ///
    /// The cell count must fit in `isize` (a machine limit: the backing
    /// vector could not be allocated otherwise).
    pub fn new(width: usize, height: usize) -> (r: Self)
        requires
            width * height <= isize::MAX,
        ensures
            r.wf(),
            r.spec_width() == width,
            r.spec_height() == height,
            forall|x: int, y: int| r.in_bounds(x, y) ==> !r.cell(x, y),
    {
        let capacity = width * height;
        let mut nodes: Vec<bool> = Vec::new();
        while nodes.len() < capacity
            invariant
                nodes@.len() <= capacity,
                forall|i: int| 0 <= i < nodes@.len() ==> !nodes@[i],
            decreases capacity - nodes@.len(),
        {
            nodes.push(false);
        }
        let r = Grid { width, height, nodes };
        proof {
            assert forall|x: int, y: int| r.in_bounds(x, y) implies !r.cell(x, y) by {
                r.lemma_index_bounds(x, y);
            }
        }
        r
    }

    /// Builds a grid from row-major row data. The height is the number of
    /// rows and the width is the first row's length. Cells of a shorter row
    /// beyond its length are treated as blocked; cells of a longer row beyond
    /// the width are ignored. (Equal-length rows are simply copied.)
    ///
    /// The implied cell count must fit in `isize` (a machine limit).
    pub fn from_2d(grid: Vec<Vec<bool>>) -> (r: Self)
        requires
            grid@.len() * (if grid@.len() == 0 {
                0int
            } else {
                grid@[0]@.len() as int
            }) <= isize::MAX,
        ensures
            r.wf(),
            r.spec_height() == grid@.len(),
            r.spec_width() == (if grid@.len() == 0 {
                0int
            } else {
                grid@[0]@.len() as int
            }),
            forall|x: int, y: int| r.in_bounds(x, y) ==> r.cell(x, y) == src_cell(grid@, y, x),
    {
        let height = grid.len();
        let width = if height == 0 {
            0
        } else {
            grid[0].len()
        };
        let mut nodes: Vec<bool> = Vec::new();
        let mut y: usize = 0;
        while y < height
            invariant
                y <= height,
                height == grid@.len(),
                width == (if grid@.len() == 0 {
                    0int
                } else {
                    grid@[0]@.len() as int
                }),
                width * height <= isize::MAX,
                nodes@.len() == y * width,
                forall|yy: int, xx: int|
                    0 <= yy < y && 0 <= xx < width ==> nodes@[yy * width + xx] == src_cell(
                        grid@,
                        yy,
                        xx,
                    ),
            decreases height - y,
        {
            let mut x: usize = 0;
            while x < width
                invariant
                    x <= width,
                    y < height,
                    height == grid@.len(),
                    width == (if grid@.len() == 0 {
                        0int
                    } else {
                        grid@[0]@.len() as int
                    }),
                    width * height <= isize::MAX,
                    nodes@.len() == y * width + x,
                    forall|yy: int, xx: int|
                        0 <= yy < y && 0 <= xx < width ==> nodes@[yy * width + xx] == src_cell(
                            grid@,
                            yy,
                            xx,
                        ),
                    forall|xx: int|
                        0 <= xx < x ==> nodes@[y * width + xx] == src_cell(grid@, y as int, xx),
                decreases width - x,
            {
                let row = &grid[y];
                let b = if x < row.len() {
                    row[x]
                } else {
                    true
                };
                nodes.push(b);
                x = x + 1;
                proof {
                    let w = width as int;
                    let yi = y as int;
                    assert forall|yy: int, xx: int|
                        0 <= yy < yi && 0 <= xx < w implies nodes@[yy * w + xx] == src_cell(
                        grid@,
                        yy,
                        xx,
                    ) by {
                        lemma_row_major_bound(yy, xx, yi, w);
                    }
                    assert forall|xx: int| 0 <= xx < x implies nodes@[yi * w + xx] == src_cell(
                        grid@,
                        yi,
                        xx,
                    ) by {
                        assert(0 <= yi * w + xx < nodes@.len()) by (nonlinear_arith)
                            requires
                                0 <= xx < x <= w,
                                nodes@.len() == yi * w + x,
                                0 <= yi,
                        ;
                    }
                }
            }
            y = y + 1;
            proof {
                let w = width as int;
                let yi = y as int;
                assert(nodes@.len() == yi * w) by (nonlinear_arith)
                    requires
                        nodes@.len() == (yi - 1) * w + w,
                ;
                assert forall|yy: int, xx: int|
                    0 <= yy < yi && 0 <= xx < w implies nodes@[yy * w + xx] == src_cell(
                    grid@,
                    yy,
                    xx,
                ) by {
                    lemma_row_major_bound(yy, xx, yi, w);
                }
            }
        }
        proof {
            assert(height * width == width * height) by (nonlinear_arith);
        }
        let r = Grid { width, height, nodes };
        proof {
            assert forall|x: int, y: int| r.in_bounds(x, y) implies r.cell(x, y) == src_cell(
                grid@,
                y,
                x,
            ) by {
                r.lemma_index_bounds(x, y);
                lemma_row_major_bound(y, x, r.spec_height(), r.spec_width());
            }
        }
        r
    }

    /// Returns the width of the grid.
    pub fn width(&self) -> (r: usize)
        ensures
            r == self.spec_width(),
    {
        self.width
    }

    /// Returns the height of the grid.
    pub fn height(&self) -> (r: usize)
        ensures
            r == self.spec_height(),
    {
        self.height
    }

    /// Returns the row-major index of the cell at (x, y), or `None` when
    /// (x, y) is out of bounds.
    pub fn index(&self, x: isize, y: isize) -> (r: Option<usize>)
        requires
            self.wf(),
        ensures
            r == (if self.in_bounds(x as int, y as int) {
                Some((y * self.spec_width() + x) as usize)
            } else {
                None::<usize>
            }),
            r matches Some(i) ==> i < self.cells().len(),
    {
        if x >= 0 && y >= 0 && (x as usize) < self.width && (y as usize) < self.height {
            proof {
                self.lemma_index_bounds(x as int, y as int);
            }
            Some(y as usize * self.width + x as usize)
        } else {
            None
        }
    }

    /// Returns the blocked flag of the cell at (x, y), or `None` when (x, y)
    /// is out of bounds.
    pub fn get(&self, x: isize, y: isize) -> (r: Option<bool>)
        requires
            self.wf(),
        ensures
            r == (if self.in_bounds(x as int, y as int) {
                Some(self.cell(x as int, y as int))
            } else {
                None::<bool>
            }),
    {
        proof {
            if self.in_bounds(x as int, y as int) {
                self.lemma_index_bounds(x as int, y as int);
            }
        }
        match self.index(x, y) {
            Some(i) => Some(self.nodes[i]),
            None => None,
        }
    }

    /// Returns a mutable reference to the blocked flag of the cell at
    /// (x, y), or `None` when (x, y) is out of bounds; the grid then holds
    /// whatever the caller writes through the reference.
    pub fn get_mut(&mut self, x: isize, y: isize) -> (r: Option<&mut bool>)
        requires
            old(self).wf(),
        ensures
            r is Some <==> old(self).in_bounds(x as int, y as int),
            r is None ==> *final(self) == *old(self),
            r matches Some(b) ==> {
                &&& *b == old(self).cell(x as int, y as int)
                &&& final(self).spec_width() == old(self).spec_width()
                &&& final(self).spec_height() == old(self).spec_height()
                &&& final(self).cells() == old(self).cells().update(
                    y * old(self).spec_width() + x,
                    *final(b),
                )
            },
    {
        proof {
            if self.in_bounds(x as int, y as int) {
                self.lemma_index_bounds(x as int, y as int);
            }
        }
        match self.index(x, y) {
            Some(i) => Some(&mut self.nodes[i]),
            None => None,
        }
    }

    /// Sets the blocked flag of the cell at (x, y). Out-of-bounds
    /// coordinates leave the grid unchanged; the returned flag says whether
    /// the write happened.
    pub fn set(&mut self, x: isize, y: isize, blocked: bool) -> (r: bool)
        requires
            old(self).wf(),
        ensures
            r == old(self).in_bounds(x as int, y as int),
            final(self).wf(),
            final(self).spec_width() == old(self).spec_width(),
            final(self).spec_height() == old(self).spec_height(),
            !r ==> *final(self) == *old(self),
            r ==> final(self).cells() == old(self).cells().update(
                y * old(self).spec_width() + x,
                blocked,
            ),
    {
        proof {
            if self.in_bounds(x as int, y as int) {
                self.lemma_index_bounds(x as int, y as int);
            }
        }
        match self.index(x, y) {
            Some(i) => {
                self.nodes[i] = blocked;
                true
            },
            None => false,
        }
    }

    /// Returns whether the cell at `point` is walkable: in bounds and not
    /// blocked.
    pub fn is_walkable(&self, point: Point) -> (r: bool)
        requires
            self.wf(),
        ensures
            r == self.walkable(point),
    {
        match self.get(point.x, point.y) {
            Some(blocked) => !blocked,
            None => false,
        }
    }
}

} // verus!
