//! The similarity scorer: how far a raster is from the raster that was
//! asked for, pixel by pixel.
//!
//! The penalty for a raster is the sum, over all pixels, of the Euclidean
//! distance between the colour that it has and the colour that was asked
//! for, times a constant. This module gives the square of every such
//! distance, exactly; the square roots and their sum are the caller's.

use vstd::prelude::*;
use crate::color::{lemma_distance_squared, Color};
use crate::error::Error;
use crate::raster::{is_grid, Raster};

verus! {

/// Whether `squares` holds, for every pixel of `mine`, the square of the
/// distance to the same pixel of `expected`.
pub open spec fn is_distance_grid(
    squares: Seq<Seq<u32>>,
    mine: Seq<Seq<Color>>,
    expected: Seq<Seq<Color>>,
) -> bool {
    &&& squares.len() == mine.len()
    &&& forall|x: int|
        0 <= x < mine.len() ==> (#[trigger] squares[x]).len() == mine[x].len() && forall|y: int|
            0 <= y < mine[x].len() ==> #[trigger] squares[x][y] == mine[x][y].distance_squared(
                expected[x][y],
            )
}

/// The squares of the distances as specifications see them.
pub open spec fn square_views(squares: Seq<Vec<u32>>) -> Seq<Seq<u32>> {
    squares.map_values(|column: Vec<u32>| column@)
}

/// For every pixel, by column and row, the square of the Euclidean distance
/// between its colour in `mine` and its colour in `expected`; or
/// `DimensionMismatch` where the two rasters differ in width or height.
pub fn get_pixel_distances_squared(mine: &Raster, expected: &Raster) -> (result: Result<
    Vec<Vec<u32>>,
    Error,
>)
    requires
        mine.wf(),
        expected.wf(),
    ensures
        match result {
            Ok(squares) => mine@.len() == expected@.len() && mine.rows() == expected.rows()
                && is_distance_grid(square_views(squares@), mine@, expected@),
            Err(e) => (mine@.len() != expected@.len() || mine.rows() != expected.rows()) && e
                == Error::DimensionMismatch,
        },
{
    if mine.width() != expected.width() || mine.height() != expected.height() {
        return Err(Error::DimensionMismatch);
    }
    let width: usize = mine.width();
    let height: usize = mine.height();
    let mut squares: Vec<Vec<u32>> = Vec::new();
    let mut x: usize = 0;
    while x < width
        invariant
            mine.wf(),
            expected.wf(),
            width == mine@.len(),
            width == expected@.len(),
            height == mine.rows(),
            height == expected.rows(),
            x <= width,
            squares@.len() == x,
            forall|i: int|
                0 <= i < x ==> (#[trigger] squares@[i])@.len() == height && forall|j: int|
                    0 <= j < height ==> #[trigger] squares@[i]@[j] == mine@[i][j].distance_squared(
                        expected@[i][j],
                    ),
        decreases width - x,
    {
        let mut column: Vec<u32> = Vec::new();
        let mut y: usize = 0;
        while y < height
            invariant
                mine.wf(),
                expected.wf(),
                x < width,
                width == mine@.len(),
                width == expected@.len(),
                height == mine.rows(),
                height == expected.rows(),
                y <= height,
                column@.len() == y,
                forall|j: int|
                    0 <= j < y ==> #[trigger] column@[j] == mine@[x as int][j].distance_squared(
                        expected@[x as int][j],
                    ),
            decreases height - y,
        {
            let a: Color = mine.get(x, y);
            let b: Color = expected.get(x, y);
            column.push(a.dist_squared(&b));
            y += 1;
        }
        squares.push(column);
        x += 1;
    }
    proof {
        let views = square_views(squares@);
        assert forall|i: int| 0 <= i < mine@.len() implies (#[trigger] views[i]).len()
            == mine@[i].len() && forall|j: int|
            0 <= j < mine@[i].len() ==> #[trigger] views[i][j] == mine@[i][j].distance_squared(
                expected@[i][j],
            ) by {
            assert(views[i] == squares@[i]@);
            assert(mine@[i].len() == mine.rows());
        }
    }
    Ok(squares)
}

/// A raster is at distance zero from itself, at every pixel; and where the
/// distance is zero at every pixel, the two rasters are the same.
pub proof fn lemma_zero_distance(
    squares: Seq<Seq<u32>>,
    mine: Seq<Seq<Color>>,
    expected: Seq<Seq<Color>>,
    height: nat,
)
    requires
        is_distance_grid(squares, mine, expected),
        is_grid(mine, height),
        is_grid(expected, height),
        mine.len() == expected.len(),
    ensures
        mine == expected <==> forall|x: int, y: int|
            0 <= x < squares.len() && 0 <= y < squares[x].len() ==> squares[x][y] == 0,
{
    if mine == expected {
        assert forall|x: int, y: int|
            0 <= x < squares.len() && 0 <= y < squares[x].len() implies squares[x][y] == 0 by {
            lemma_distance_squared(mine[x][y], expected[x][y]);
        }
    }
    if forall|x: int, y: int|
        0 <= x < squares.len() && 0 <= y < squares[x].len() ==> squares[x][y] == 0 {
        assert forall|x: int| 0 <= x < mine.len() implies mine[x] =~= expected[x] by {
            assert(squares[x].len() == mine[x].len());
            assert forall|y: int| 0 <= y < mine[x].len() implies mine[x][y] == expected[x][y] by {
                assert(squares[x][y] == 0);
                lemma_distance_squared(mine[x][y], expected[x][y]);
            }
        }
        assert(mine =~= expected);
    }
}

} // verus!
