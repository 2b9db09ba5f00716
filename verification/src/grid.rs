//! A dense rectangle of cells addressed by signed coordinates.

use crate::map::Bounded;
use crate::point::{in_bounds, valid_extent, Point2D};
use vstd::prelude::*;

verus! {

/// The number of cells of a rectangle.
pub open spec fn extent_area(bounds: (Point2D, Point2D)) -> int {
    (bounds.1.0 - bounds.0.0) * (bounds.1.1 - bounds.0.1)
}

/// Where the cell `p` of a rectangle stands among its cells: the cells of
/// one `x` are together, in the order of their `y`.
pub open spec fn cell_index(bounds: (Point2D, Point2D), p: Point2D) -> int {
    (p.0 - bounds.0.0) * (bounds.1.1 - bounds.0.1) + (p.1 - bounds.0.1)
}

/// Every cell of a rectangle has a place of its own among its cells.
pub proof fn lemma_cell_index(bounds: (Point2D, Point2D), p: Point2D, q: Point2D)
    requires
        in_bounds(p, bounds),
        in_bounds(q, bounds),
    ensures
        0 <= cell_index(bounds, p) < extent_area(bounds),
        cell_index(bounds, p) == cell_index(bounds, q) ==> p == q,
{
    let h = bounds.1.1 - bounds.0.1;
    let w = bounds.1.0 - bounds.0.0;
    let i = p.0 - bounds.0.0;
    let j = p.1 - bounds.0.1;
    let k = q.0 - bounds.0.0;
    let l = q.1 - bounds.0.1;
    assert(0 <= i * h + j < w * h) by (nonlinear_arith)
        requires
            0 <= i < w,
            0 <= j < h,
    ;
    assert(i * h + j == k * h + l ==> i == k) by (nonlinear_arith)
        requires
            0 <= j < h,
            0 <= l < h,
    ;
}

/// The value that a sequence of cells holds for the cell `p`.
pub open spec fn cell<T>(bounds: (Point2D, Point2D), cells: Seq<T>, p: Point2D) -> T {
    cells[cell_index(bounds, p)]
}

/// Writing one cell changes that cell and no other.
pub proof fn lemma_cell_update<T>(
    bounds: (Point2D, Point2D),
    cells: Seq<T>,
    p: Point2D,
    value: T,
    q: Point2D,
)
    requires
        in_bounds(p, bounds),
        in_bounds(q, bounds),
        cells.len() == extent_area(bounds),
    ensures
        cell(bounds, cells.update(cell_index(bounds, p), value), q) == if q == p {
            value
        } else {
            cell(bounds, cells, q)
        },
{
    lemma_cell_index(bounds, p, q);
    lemma_cell_index(bounds, q, p);
}

/// A value of type `T` for every cell of a rectangle `[min, max)`.
pub struct Grid<T> {
    cells: Vec<T>,
    min: Point2D,
    max: Point2D,
}

impl<T> Grid<T> {
    /// The grid holds one value for each cell of a valid rectangle.
    pub closed spec fn wf(&self) -> bool {
        &&& valid_extent((self.min, self.max))
        &&& self.cells.len() == extent_area((self.min, self.max))
    }

    /// The rectangle that the grid covers.
    pub closed spec fn bounds(&self) -> (Point2D, Point2D) {
        (self.min, self.max)
    }

    /// The cells' values, each at its `cell_index`.
    pub closed spec fn view(&self) -> Seq<T> {
        self.cells@
    }

    /// The value of the cell `p`.
    pub open spec fn at(&self, p: Point2D) -> T {
        cell(self.bounds(), self@, p)
    }

    /// A well-formed grid covers a valid rectangle, cell by cell.
    pub proof fn lemma_wf(&self)
        requires
            self.wf(),
        ensures
            valid_extent(self.bounds()),
            self@.len() == extent_area(self.bounds()),
    {
    }

    /// The rectangle that the grid covers.
    pub fn boundaries(&self) -> (r: (Point2D, Point2D))
        ensures
            r == self.bounds(),
    {
        (self.min, self.max)
    }

    /// The number of cells.
    pub fn len(&self) -> (n: usize)
        ensures
            n == self@.len(),
    {
        self.cells.len()
    }
}

impl<T: Copy> Grid<T> {
    /// A grid over `bounds` with `elem` in every cell.
    pub fn new(bounds: (Point2D, Point2D), elem: T) -> (g: Grid<T>)
        requires
            valid_extent(bounds),
        ensures
            g.wf(),
            g.bounds() == bounds,
            g@.len() == extent_area(bounds),
            forall|i: int| 0 <= i < g@.len() ==> g@[i] == elem,
            forall|p: Point2D| in_bounds(p, bounds) ==> #[trigger] g.at(p) == elem,
    {
        let min: Point2D = bounds.0;
        let max: Point2D = bounds.1;
        let width: usize = (max.0 as i128 - min.0 as i128) as usize;
        let height: usize = (max.1 as i128 - min.1 as i128) as usize;
        let mut cells: Vec<T> = Vec::new();
        let mut x: usize = 0;
        while x < width
            invariant
                x <= width,
                cells.len() == x * height,
                forall|i: int| 0 <= i < cells.len() ==> cells@[i] == elem,
            decreases width - x,
        {
            let mut y: usize = 0;
            while y < height
                invariant
                    y <= height,
                    cells.len() == x * height + y,
                    forall|i: int| 0 <= i < cells.len() ==> cells@[i] == elem,
                decreases height - y,
            {
                cells.push(elem);
                y = y + 1;
            }
            assert((x + 1) * height == x * height + height) by (nonlinear_arith);
            x = x + 1;
        }
        let g = Grid { cells, min, max };
        proof {
            assert forall|p: Point2D| in_bounds(p, bounds) implies #[trigger] g.at(p) == elem by {
                lemma_cell_index(bounds, p, p);
            }
        }
        g
    }

    /// A grid over `((0, 0), (rows.len(), rows[0].len()))` whose cell
    /// `(x, y)` holds `rows[x][y]`.
    pub fn from(rows: Vec<Vec<T>>) -> (g: Grid<T>)
        requires
            forall|x: int| 0 <= x < rows.len() ==> (#[trigger] rows[x]).len() == rows[0].len(),
            rows.len() <= isize::MAX,
            rows.len() > 0 ==> rows[0].len() <= isize::MAX,
        ensures
            g.wf(),
            g.bounds() == ((0isize, 0isize), (rows.len() as isize, if rows.len() > 0 {
                rows[0].len() as isize
            } else {
                0isize
            })),
            forall|p: Point2D|
                0 <= p.0 < rows.len() && 0 <= p.1 < rows[p.0 as int].len() ==> #[trigger] g.at(p)
                    == rows[p.0 as int][p.1 as int],
    {
        let width: usize = rows.len();
        let height: usize = if width > 0 {
            rows[0].len()
        } else {
            0
        };
        let bounds: (Point2D, Point2D) = ((0, 0), (width as isize, height as isize));
        let mut cells: Vec<T> = Vec::new();
        let mut x: usize = 0;
        while x < width
            invariant
                x <= width,
                width == rows.len(),
                width > 0 ==> height == rows[0].len(),
                forall|i: int| 0 <= i < rows.len() ==> (#[trigger] rows[i]).len() == height,
                cells.len() == x * height,
                forall|i: int, j: int|
                    0 <= i < x && 0 <= j < height ==> cells@[i * height + j] == #[trigger] rows[i][j],
            decreases width - x,
        {
            let row: &Vec<T> = &rows[x];
            let mut y: usize = 0;
            while y < height
                invariant
                    y <= height,
                    x < width,
                    row.len() == height,
                    row == rows[x as int],
                    cells.len() == x * height + y,
                    forall|i: int, j: int|
                        0 <= i < x && 0 <= j < height ==> cells@[i * height + j]
                            == #[trigger] rows[i][j],
                    forall|j: int| 0 <= j < y ==> cells@[x * height + j] == #[trigger] row[j],
                decreases height - y,
            {
                let ghost before = cells@;
                cells.push(row[y]);
                proof {
                    assert forall|i: int, j: int| 0 <= i < x && 0 <= j < height implies cells@[i
                        * height + j] == #[trigger] rows[i][j] by {
                        assert(i * height + j < x * height) by (nonlinear_arith)
                            requires
                                0 <= i < x,
                                0 <= j < height,
                        ;
                        assert(cells@[i * height + j] == before[i * height + j]);
                    }
                }
                y = y + 1;
            }
            proof {
                assert((x + 1) * height == x * height + height) by (nonlinear_arith);
                assert forall|i: int, j: int| 0 <= i < x + 1 && 0 <= j < height implies cells@[i
                    * height + j] == #[trigger] rows[i][j] by {
                    if i == x {
                        assert(cells@[x * height + j] == row[j]);
                    }
                }
            }
            x = x + 1;
        }
        proof {
            assert(width * height == extent_area(bounds)) by (nonlinear_arith)
                requires
                    extent_area(bounds) == (width - 0) * (height - 0),
            ;
        }
        let g = Grid { cells, min: (0, 0), max: (width as isize, height as isize) };
        proof {
            assert forall|p: Point2D|
                0 <= p.0 < rows.len() && 0 <= p.1 < rows[p.0 as int].len() implies #[trigger] g.at(p)
                == rows[p.0 as int][p.1 as int] by {
                assert(cell_index(g.bounds(), p) == p.0 * height + p.1);
                assert(cells@[p.0 * height + p.1] == rows[p.0 as int][p.1 as int]);
            }
        }
        g
    }

    /// The value of the cell `point`.
    pub fn get(&self, point: &Point2D) -> (r: T)
        requires
            self.wf(),
            in_bounds(*point, self.bounds()),
        ensures
            r == self.at(*point),
    {
        let i: usize = self.to_ix(point);
        self.cells[i]
    }

    /// Gives the cell `point` the value `elem`; the other cells keep theirs.
    pub fn set(&mut self, point: &Point2D, elem: T)
        requires
            old(self).wf(),
            in_bounds(*point, old(self).bounds()),
        ensures
            final(self).wf(),
            final(self).bounds() == old(self).bounds(),
            final(self)@ == old(self)@.update(cell_index(old(self).bounds(), *point), elem),
            final(self).at(*point) == elem,
            forall|q: Point2D|
                in_bounds(q, old(self).bounds()) && q != *point ==> #[trigger] final(self).at(q)
                    == old(self).at(q),
    {
        let i: usize = self.to_ix(point);
        proof {
            assert forall|q: Point2D| in_bounds(q, self.bounds()) && q != *point implies cell_index(
                self.bounds(),
                q,
            ) != i && 0 <= cell_index(self.bounds(), q) < self.cells.len() by {
                lemma_cell_index(self.bounds(), q, *point);
            }
        }
        self.cells.set(i, elem);
    }

    /// The place of the cell `point` among the cells.
    fn to_ix(&self, point: &Point2D) -> (i: usize)
        requires
            self.wf(),
            in_bounds(*point, self.bounds()),
        ensures
            i == cell_index(self.bounds(), *point),
            i < self@.len(),
    {
        proof {
            lemma_cell_index(self.bounds(), *point, *point);
        }
        let x: usize = (point.0 as i128 - self.min.0 as i128) as usize;
        let y: usize = (point.1 as i128 - self.min.1 as i128) as usize;
        let height: usize = (self.max.1 as i128 - self.min.1 as i128) as usize;
        assert(x * height + y == cell_index(self.bounds(), *point));
        x * height + y
    }
}

impl<T> Bounded for Grid<T> {
    open spec fn spec_boundaries(&self) -> (Point2D, Point2D) {
        self.bounds()
    }

    fn boundaries(&self) -> (r: (Point2D, Point2D)) {
        Grid::boundaries(self)
    }
}

} // verus!
