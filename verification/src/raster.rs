//! The raster: a dense grid of colours, addressed by column `x` and row `y`
//! with row 0 at the bottom, and its flattening into image bytes.

use vstd::prelude::*;
use crate::color::Color;
use crate::geometry::Rect;

verus! {

/// A `width x height` grid of colours, all opaque white.
pub open spec fn blank_cells(width: nat, height: nat) -> Seq<Seq<Color>> {
    Seq::new(width, |x: int| Seq::new(height, |y: int| Color::blank()))
}

/// The grid `cells` with every cell of `rect` set to `color`. Cells outside
/// `rect` keep their colour.
pub open spec fn painted(cells: Seq<Seq<Color>>, rect: Rect, color: Color) -> Seq<Seq<Color>> {
    Seq::new(
        cells.len(),
        |x: int|
            Seq::new(
                cells[x].len(),
                |y: int|
                    if rect.contains(x, y) {
                        color
                    } else {
                        cells[x][y]
                    },
            ),
    )
}

/// Whether every column of `cells` has `height` cells.
pub open spec fn is_grid(cells: Seq<Seq<Color>>, height: nat) -> bool {
    forall|x: int| 0 <= x < cells.len() ==> (#[trigger] cells[x]).len() == height
}

/// The first `upto` pixels of image row `row`, four bytes each. Image rows
/// count from the top, so image row `row` is row `height - 1 - row` of the
/// grid.
pub open spec fn row_bytes(cells: Seq<Seq<Color>>, height: nat, row: int, upto: int) -> Seq<u8>
    decreases upto,
{
    if upto <= 0 {
        Seq::empty()
    } else {
        row_bytes(cells, height, row, upto - 1) + cells[upto - 1][height - 1 - row].channels()
    }
}

/// The first `upto` image rows, from the top, each from left to right.
pub open spec fn image_bytes(cells: Seq<Seq<Color>>, height: nat, upto: int) -> Seq<u8>
    decreases upto,
{
    if upto <= 0 {
        Seq::empty()
    } else {
        image_bytes(cells, height, upto - 1) + row_bytes(
            cells,
            height,
            upto - 1,
            cells.len() as int,
        )
    }
}

/// A dense raster of colours.
#[derive(Debug, PartialEq, Eq)]
pub struct Raster {
    columns: Vec<Vec<Color>>,
    height: usize,
}

impl View for Raster {
    type V = Seq<Seq<Color>>;

    /// The cells by column: `self@[x][y]` is the colour at column `x`, row
    /// `y`.
    closed spec fn view(&self) -> Seq<Seq<Color>> {
        Seq::new(self.columns@.len(), |x: int| self.columns@[x]@)
    }
}

impl Raster {
    /// The number of rows.
    pub closed spec fn rows(&self) -> nat {
        self.height as nat
    }

    /// The invariant of a raster: every column has `rows()` cells.
    pub open spec fn wf(&self) -> bool {
        is_grid(self@, self.rows())
    }

    /// A `width x height` raster, all opaque white.
    pub fn new(width: usize, height: usize) -> (raster: Raster)
        ensures
            raster.wf(),
            raster.rows() == height,
            raster@ == blank_cells(width as nat, height as nat),
    {
        let mut columns: Vec<Vec<Color>> = Vec::new();
        let mut x: usize = 0;
        while x < width
            invariant
                x <= width,
                columns@.len() == x,
                forall|i: int|
                    0 <= i < x ==> (#[trigger] columns@[i])@ == Seq::new(
                        height as nat,
                        |y: int| Color::blank(),
                    ),
            decreases width - x,
        {
            let mut column: Vec<Color> = Vec::new();
            let mut y: usize = 0;
            while y < height
                invariant
                    y <= height,
                    column@.len() == y,
                    forall|j: int| 0 <= j < y ==> #[trigger] column@[j] == Color::blank(),
                decreases height - y,
            {
                column.push(Color::white());
                y += 1;
            }
            assert(column@ =~= Seq::new(height as nat, |y: int| Color::blank()));
            columns.push(column);
            x += 1;
        }
        let raster = Raster { columns, height };
        assert(raster@ =~= blank_cells(width as nat, height as nat));
        raster
    }

    /// The number of columns.
    pub fn width(&self) -> (w: usize)
        ensures
            w == self@.len(),
    {
        self.columns.len()
    }

    /// The number of rows.
    pub fn height(&self) -> (h: usize)
        ensures
            h == self.rows(),
    {
        self.height
    }

    /// The colour at column `x`, row `y`.
    pub fn get(&self, x: usize, y: usize) -> (c: Color)
        requires
            self.wf(),
            x < self@.len(),
            y < self.rows(),
        ensures
            c == self@[x as int][y as int],
    {
        assert(self@[x as int].len() == self.rows());
        self.columns[x][y]
    }

    /// Sets the colour at column `x`, row `y`.
    pub fn set(&mut self, x: usize, y: usize, color: Color)
        requires
            old(self).wf(),
            x < old(self)@.len(),
            y < old(self).rows(),
        ensures
            final(self).wf(),
            final(self).rows() == old(self).rows(),
            final(self)@ == old(self)@.update(
                x as int,
                old(self)@[x as int].update(y as int, color),
            ),
    {
        assert(self@[x as int].len() == self.rows());
        self.columns[x][y] = color;
        assert(self@ =~= old(self)@.update(x as int, old(self)@[x as int].update(y as int, color)));
        assert forall|i: int| 0 <= i < self@.len() implies (#[trigger] self@[i]).len()
            == self.rows() by {
            assert(old(self)@[i].len() == old(self).rows());
        }
    }

    /// Sets every cell of `rect` to `color`. The rectangle must lie on the
    /// raster; it may be empty.
    pub fn fill(&mut self, rect: &Rect, color: Color)
        requires
            old(self).wf(),
            0 <= rect.from.x <= rect.to.x <= old(self)@.len(),
            0 <= rect.from.y <= rect.to.y <= old(self).rows(),
        ensures
            final(self).wf(),
            final(self).rows() == old(self).rows(),
            final(self)@ == painted(old(self)@, *rect, color),
    {
        let mut x: i32 = rect.from.x;
        while x < rect.to.x
            invariant
                rect.from.x <= x <= rect.to.x,
                0 <= rect.from.x <= rect.to.x <= old(self)@.len(),
                0 <= rect.from.y <= rect.to.y <= old(self).rows(),
                old(self).wf(),
                self.wf(),
                self.rows() == old(self).rows(),
                self@.len() == old(self)@.len(),
                forall|i: int, j: int|
                    0 <= i < self@.len() && 0 <= j < self.rows() ==> #[trigger] self@[i][j] == (if i
                        < x && rect.contains(i, j) {
                        color
                    } else {
                        old(self)@[i][j]
                    }),
            decreases rect.to.x - x,
        {
            let mut y: i32 = rect.from.y;
            while y < rect.to.y
                invariant
                    rect.from.x <= x < rect.to.x,
                    rect.from.y <= y <= rect.to.y,
                    0 <= rect.from.x <= rect.to.x <= old(self)@.len(),
                    0 <= rect.from.y <= rect.to.y <= old(self).rows(),
                    old(self).wf(),
                    self.wf(),
                    self.rows() == old(self).rows(),
                    self@.len() == old(self)@.len(),
                    forall|i: int, j: int|
                        0 <= i < self@.len() && 0 <= j < self.rows() ==> #[trigger] self@[i][j]
                            == (if (i < x && rect.contains(i, j)) || (i == x && rect.from.y <= j
                            < y) {
                            color
                        } else {
                            old(self)@[i][j]
                        }),
                decreases rect.to.y - y,
            {
                let ghost before = self@;
                let ghost rows = self.rows();
                self.set(x as usize, y as usize, color);
                assert forall|i: int, j: int|
                    0 <= i < self@.len() && 0 <= j < self.rows() implies #[trigger] self@[i][j] == (
                if (i < x && rect.contains(i, j)) || (i == x && rect.from.y <= j < y + 1) {
                    color
                } else {
                    old(self)@[i][j]
                }) by {
                    assert(before[i].len() == rows);
                    assert(self@[i][j] == if i == x && j == y {
                        color
                    } else {
                        before[i][j]
                    });
                }
                y += 1;
            }
            x += 1;
        }
        proof {
            let goal = painted(old(self)@, *rect, color);
            assert forall|i: int| 0 <= i < self@.len() implies #[trigger] self@[i] =~= goal[i] by {
                assert(self@[i].len() == self.rows());
                assert(old(self)@[i].len() == old(self).rows());
            }
            assert(self@ =~= goal);
        }
    }

    /// The raster as image bytes: the rows from the top one down, each from
    /// left to right, each pixel as its four channels.
    pub fn to_rgba(&self) -> (bytes: Vec<u8>)
        requires
            self.wf(),
        ensures
            bytes@ == image_bytes(self@, self.rows(), self.rows() as int),
    {
        let width: usize = self.columns.len();
        let mut bytes: Vec<u8> = Vec::new();
        let mut row: usize = 0;
        while row < self.height
            invariant
                self.wf(),
                row <= self.height,
                width == self@.len(),
                bytes@ == image_bytes(self@, self.rows(), row as int),
            decreases self.height - row,
        {
            let ghost done = bytes@;
            let mut x: usize = 0;
            while x < width
                invariant
                    self.wf(),
                    row < self.height,
                    x <= width,
                    width == self@.len(),
                    bytes@ == done + row_bytes(self@, self.rows(), row as int, x as int),
                decreases width - x,
            {
                let c: Color = self.get(x, self.height - 1 - row);
                bytes.push(c.r);
                bytes.push(c.g);
                bytes.push(c.b);
                bytes.push(c.a);
                x += 1;
                assert(bytes@ =~= done + row_bytes(self@, self.rows(), row as int, x as int));
            }
            row += 1;
        }
        bytes
    }
}

/// The image bytes of a grid: four for every cell.
pub proof fn lemma_image_bytes_len(cells: Seq<Seq<Color>>, height: nat, upto: int)
    requires
        0 <= upto,
    ensures
        image_bytes(cells, height, upto).len() == 4 * cells.len() * upto,
    decreases upto,
{
    if upto > 0 {
        lemma_image_bytes_len(cells, height, upto - 1);
        lemma_row_bytes_len(cells, height, upto - 1, cells.len() as int);
        assert(4 * cells.len() * (upto - 1) + 4 * cells.len() == 4 * cells.len() * upto)
            by (nonlinear_arith);
    } else {
        assert(4 * cells.len() * 0 == 0) by (nonlinear_arith);
    }
}

/// The bytes of a row: four for every pixel.
pub proof fn lemma_row_bytes_len(cells: Seq<Seq<Color>>, height: nat, row: int, upto: int)
    requires
        0 <= upto,
    ensures
        row_bytes(cells, height, row, upto).len() == 4 * upto,
    decreases upto,
{
    if upto > 0 {
        lemma_row_bytes_len(cells, height, row, upto - 1);
    }
}

} // verus!
