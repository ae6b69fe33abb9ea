//! What the programs of the scheduler do when the interpreter runs them.
//!
//! The scheduler paints every rectangle by colouring the region to the
//! right of and above its lower left corner. Run on a canvas of one block,
//! such a program is never refused, leaves the canvas as one block again,
//! and gives every cell of every rectangle the colour of that rectangle.

use vstd::prelude::*;
use crate::block_id::{child_of, decimal, root_id};
use crate::color::Color;
use crate::geometry::{Point, Rect};
use crate::interpreter::{lemma_run_concat, lemma_step, CanvasView};
use crate::partition::{
    children, halves, lemma_initial_wf, lemma_place_of, place_before_removal, quadrants, Axis,
    BlockView, PartitionView,
};
use crate::raster::{is_grid, painted};
use crate::scheduler::{
    corner_next, corner_ops, cursor_after, emitted, lemma_paint_order_valid, must_precede,
    paint_order, schedulable, valid_order, SolutionRect,
};

verus! {

/// The region to the right of and above `from` on a `width x height`
/// canvas.
pub open spec fn corner_rect(from: Point, width: int, height: int) -> Rect {
    Rect { from, to: Point { x: width as i32, y: height as i32 } }
}

/// Whether the canvas is one block with the number `whole`, the number that
/// was given out last.
pub open spec fn one_block(s: CanvasView, whole: nat) -> bool {
    &&& s.wf()
    &&& s.partition.minted == whole
    &&& s.partition.blocks == seq![
        BlockView {
            id: decimal(whole),
            rect: corner_rect(Point::origin(), s.partition.width, s.partition.height),
        },
    ]
}

/// Whether `from` is the lower left corner of a cell of the canvas.
pub open spec fn on_canvas(from: Point, width: int, height: int) -> bool {
    0 <= from.x < width && 0 <= from.y < height
}

/// In a well-formed partition the block at place `i` is live under its
/// name, and a cut of it puts its children in its stead, at the end.
pub proof fn lemma_split_at(p: PartitionView, i: int, rects: Seq<Rect>)
    requires
        p.wf(),
        0 <= i < p.blocks.len(),
    ensures
        p.live(p.blocks[i].id),
        p.rect_of(p.blocks[i].id) == p.blocks[i].rect,
        p.split(p.blocks[i].id, rects).blocks == p.blocks.remove(i) + children(
            p.blocks[i].id,
            rects,
        ),
{
    lemma_place_of(p.blocks, i);
}

/// In a well-formed partition a merge of the blocks at the places `i` and
/// `j` takes both out and puts a block with the next number at the end.
pub proof fn lemma_merge_at(p: PartitionView, i: int, j: int)
    requires
        p.wf(),
        0 <= i < p.blocks.len(),
        0 <= j < p.blocks.len(),
        i != j,
    ensures
        p.live(p.blocks[i].id),
        p.live(p.blocks[j].id),
        p.rect_of(p.blocks[i].id) == p.blocks[i].rect,
        p.rect_of(p.blocks[j].id) == p.blocks[j].rect,
        p.merge(p.blocks[i].id, p.blocks[j].id).blocks == p.blocks.remove(i).remove(
            if j < i {
                j
            } else {
                j - 1
            },
        ).push(
            BlockView {
                id: decimal(p.minted + 1),
                rect: p.blocks[i].rect.hull(p.blocks[j].rect),
            },
        ),
{
    lemma_place_of(p.blocks, i);
    lemma_place_of(p.blocks, j);
    let rest = p.blocks.remove(i);
    p.blocks.remove_ensures(i);
    let j1 = if j < i {
        j
    } else {
        j - 1
    };
    assert(rest[j1] == p.blocks[j]);
    assert forall|a: int, b: int|
        0 <= a < rest.len() && 0 <= b < rest.len() && a != b implies (#[trigger] rest[a]).id != (
    #[trigger] rest[b]).id by {
        let sa = place_before_removal(i, a);
        let sb = place_before_removal(i, b);
        assert(p.blocks[sa].id != p.blocks[sb].id);
    }
    lemma_place_of(rest, j1);
}

/// Whether `after` is what painting the region to the right of and above
/// `from` makes of `before`: a canvas of the same size and of one block
/// again, on which the cells of that region have the colour and all others
/// are as they were.
pub open spec fn corner_painted(
    before: CanvasView,
    after: CanvasView,
    whole: nat,
    from: Point,
    color: Color,
) -> bool {
    &&& one_block(after, corner_next(whole, from))
    &&& after.partition.width == before.partition.width
    &&& after.partition.height == before.partition.height
    &&& after.cells == painted(
        before.cells,
        corner_rect(from, before.partition.width, before.partition.height),
        color,
    )
}

/// Colouring the one block of a canvas colours the whole canvas.
proof fn lemma_paint_whole(s: CanvasView, whole: nat, color: Color)
    requires
        one_block(s, whole),
    ensures
        s.run(corner_ops(whole, Point::origin(), color)) is Ok,
        corner_painted(
            s,
            s.run(corner_ops(whole, Point::origin(), color))->Ok_0,
            whole,
            Point::origin(),
            color,
        ),
{
    let ops = corner_ops(whole, Point::origin(), color);
    lemma_split_at(s.partition, 0, Seq::empty());
    assert(s.step(ops[0]) is Ok);
    lemma_step(s, ops[0]);
    assert(ops.skip(1).len() == 0);
    assert(s.run(ops) == s.step(ops[0])) by {
        reveal_with_fuel(CanvasView::run, 2);
    }
}

/// A line cut, a colouring of the upper or right half and a merge paint the
/// region above or to the right of the line.
proof fn lemma_paint_half(s: CanvasView, whole: nat, from: Point, color: Color)
    requires
        one_block(s, whole),
        on_canvas(from, s.partition.width, s.partition.height),
        from != Point::origin(),
        from.x == 0 || from.y == 0,
    ensures
        s.run(corner_ops(whole, from, color)) is Ok,
        corner_painted(s, s.run(corner_ops(whole, from, color))->Ok_0, whole, from, color),
{
    let ops = corner_ops(whole, from, color);
    let id = decimal(whole);
    let w = s.partition.width;
    let h = s.partition.height;
    let full = corner_rect(Point::origin(), w, h);
    let axis = if from.x == 0 {
        Axis::Y
    } else {
        Axis::X
    };
    let at = if from.x == 0 {
        from.y
    } else {
        from.x
    };
    let parts = halves(full, axis, at);
    // The cut.
    lemma_split_at(s.partition, 0, parts);
    assert(s.step(ops[0]) is Ok);
    lemma_step(s, ops[0]);
    let s1 = s.step(ops[0])->Ok_0;
    let k0 = BlockView { id: child_of(id, 0), rect: parts[0] };
    let k1 = BlockView { id: child_of(id, 1), rect: parts[1] };
    assert(s1.partition.blocks =~= seq![k0, k1]);
    // The colouring.
    lemma_split_at(s1.partition, 1, Seq::empty());
    assert(s1.step(ops[1]) is Ok);
    lemma_step(s1, ops[1]);
    let s2 = s1.step(ops[1])->Ok_0;
    assert(parts[1] == corner_rect(from, w, h));
    // The merge.
    lemma_merge_at(s2.partition, 0, 1);
    assert(parts[0].mergeable(parts[1]));
    assert(s2.step(ops[2]) is Ok);
    lemma_step(s2, ops[2]);
    let s3 = s2.step(ops[2])->Ok_0;
    assert(parts[0].hull(parts[1]) == full);
    assert(s3.partition.blocks =~= seq![BlockView { id: decimal(whole + 1), rect: full }]);
    assert(s.run(ops) == Ok::<CanvasView, crate::error::Error>(s3)) by {
        reveal_with_fuel(CanvasView::run, 4);
        assert(ops.skip(1)[0] == ops[1]);
        assert(ops.skip(1).skip(1)[0] == ops[2]);
        assert(ops.skip(1).skip(1).skip(1).len() == 0);
    }
}

/// A point cut, a colouring of the upper right quadrant and three merges
/// paint the region to the right of and above the point.
proof fn lemma_paint_quadrant(s: CanvasView, whole: nat, from: Point, color: Color)
    requires
        one_block(s, whole),
        on_canvas(from, s.partition.width, s.partition.height),
        from.x != 0,
        from.y != 0,
    ensures
        s.run(corner_ops(whole, from, color)) is Ok,
        corner_painted(s, s.run(corner_ops(whole, from, color))->Ok_0, whole, from, color),
{
    let ops = corner_ops(whole, from, color);
    let id = decimal(whole);
    let w = s.partition.width;
    let h = s.partition.height;
    let full = corner_rect(Point::origin(), w, h);
    let parts = quadrants(full, from);
    // The cut.
    lemma_split_at(s.partition, 0, parts);
    assert(s.step(ops[0]) is Ok);
    lemma_step(s, ops[0]);
    let s1 = s.step(ops[0])->Ok_0;
    let k0 = BlockView { id: child_of(id, 0), rect: parts[0] };
    let k1 = BlockView { id: child_of(id, 1), rect: parts[1] };
    let k2 = BlockView { id: child_of(id, 2), rect: parts[2] };
    let k3 = BlockView { id: child_of(id, 3), rect: parts[3] };
    assert(s1.partition.blocks =~= seq![k0, k1, k2, k3]);
    // The colouring.
    lemma_split_at(s1.partition, 2, Seq::empty());
    assert(s1.step(ops[1]) is Ok);
    lemma_step(s1, ops[1]);
    let s2 = s1.step(ops[1])->Ok_0;
    assert(parts[2] == corner_rect(from, w, h));
    // The lower two quadrants become one block.
    lemma_merge_at(s2.partition, 0, 1);
    assert(parts[0].mergeable(parts[1]));
    assert(s2.step(ops[2]) is Ok);
    lemma_step(s2, ops[2]);
    let s3 = s2.step(ops[2])->Ok_0;
    let lower = BlockView { id: decimal(whole + 1), rect: parts[0].hull(parts[1]) };
    assert(s3.partition.blocks =~= seq![k2, k3, lower]);
    // The upper two quadrants become one block.
    lemma_merge_at(s3.partition, 1, 0);
    assert(parts[3].mergeable(parts[2]));
    assert(s3.step(ops[3]) is Ok);
    lemma_step(s3, ops[3]);
    let s4 = s3.step(ops[3])->Ok_0;
    let upper = BlockView { id: decimal(whole + 2), rect: parts[3].hull(parts[2]) };
    assert(s4.partition.blocks =~= seq![lower, upper]);
    // Both halves become one block.
    lemma_merge_at(s4.partition, 0, 1);
    assert(lower.rect.mergeable(upper.rect));
    assert(s4.step(ops[4]) is Ok);
    lemma_step(s4, ops[4]);
    let s5 = s4.step(ops[4])->Ok_0;
    assert(lower.rect.hull(upper.rect) == full);
    assert(s5.partition.blocks =~= seq![BlockView { id: decimal(whole + 3), rect: full }]);
    assert(s.run(ops) == Ok::<CanvasView, crate::error::Error>(s5)) by {
        reveal_with_fuel(CanvasView::run, 6);
        let r1 = ops.skip(1);
        let r2 = r1.skip(1);
        let r3 = r2.skip(1);
        let r4 = r3.skip(1);
        assert(r1[0] == ops[1]);
        assert(r2[0] == ops[2]);
        assert(r3[0] == ops[3]);
        assert(r4[0] == ops[4]);
        assert(r4.skip(1).len() == 0);
    }
}

/// The instructions of the scheduler for one rectangle are never refused on
/// a canvas of one block, and paint the region to the right of and above
/// the lower left corner of the rectangle.
pub proof fn lemma_paint_corner(s: CanvasView, whole: nat, from: Point, color: Color)
    requires
        one_block(s, whole),
        on_canvas(from, s.partition.width, s.partition.height),
    ensures
        s.run(corner_ops(whole, from, color)) is Ok,
        corner_painted(s, s.run(corner_ops(whole, from, color))->Ok_0, whole, from, color),
{
    if from == Point::origin() {
        lemma_paint_whole(s, whole, color);
    } else if from.x == 0 || from.y == 0 {
        lemma_paint_half(s, whole, from, color);
    } else {
        lemma_paint_quadrant(s, whole, from, color);
    }
}

/// The raster after the regions of the rectangles of `order` are painted,
/// one after the other, each in the colour of its rectangle.
pub open spec fn painted_all(
    cells: Seq<Seq<Color>>,
    rects: Seq<SolutionRect>,
    order: Seq<int>,
    width: int,
    height: int,
) -> Seq<Seq<Color>>
    decreases order.len(),
{
    if order.len() == 0 {
        cells
    } else {
        painted(
            painted_all(cells, rects, order.drop_last(), width, height),
            corner_rect(rects[order.last()].from, width, height),
            rects[order.last()].color,
        )
    }
}

/// The instructions of the scheduler for the rectangles of `order` are
/// never refused on a canvas of one block, where every rectangle starts on
/// the canvas. They leave a canvas of one block on which the regions of the
/// rectangles are painted in that order.
pub proof fn lemma_paint_all(
    s: CanvasView,
    whole: nat,
    rects: Seq<SolutionRect>,
    order: Seq<int>,
)
    requires
        one_block(s, whole),
        forall|k: int|
            0 <= k < order.len() ==> on_canvas(
                (#[trigger] rects[order[k]]).from,
                s.partition.width,
                s.partition.height,
            ),
    ensures
        s.run(emitted(rects, order, whole)) is Ok,
        one_block(s.run(emitted(rects, order, whole))->Ok_0, cursor_after(rects, order, whole)),
        s.run(emitted(rects, order, whole))->Ok_0.partition.width == s.partition.width,
        s.run(emitted(rects, order, whole))->Ok_0.partition.height == s.partition.height,
        s.run(emitted(rects, order, whole))->Ok_0.cells == painted_all(
            s.cells,
            rects,
            order,
            s.partition.width,
            s.partition.height,
        ),
    decreases order.len(),
{
    if order.len() > 0 {
        let earlier = order.drop_last();
        let r = rects[order.last()];
        assert forall|k: int| 0 <= k < earlier.len() implies on_canvas(
            (#[trigger] rects[earlier[k]]).from,
            s.partition.width,
            s.partition.height,
        ) by {
            assert(earlier[k] == order[k]);
            assert(on_canvas(rects[order[k]].from, s.partition.width, s.partition.height));
        }
        lemma_paint_all(s, whole, rects, earlier);
        let middle = s.run(emitted(rects, earlier, whole))->Ok_0;
        let cursor = cursor_after(rects, earlier, whole);
        assert(order[order.len() - 1] == order.last());
        assert(on_canvas(
            rects[order[order.len() - 1]].from,
            s.partition.width,
            s.partition.height,
        ));
        lemma_paint_corner(middle, cursor, r.from, r.color);
        lemma_run_concat(s, emitted(rects, earlier, whole), corner_ops(cursor, r.from, r.color));
    }
}

/// Painting keeps the raster a grid of the size of the canvas.
pub proof fn lemma_painted_all_grid(
    cells: Seq<Seq<Color>>,
    rects: Seq<SolutionRect>,
    order: Seq<int>,
    width: int,
    height: int,
)
    requires
        cells.len() == width,
        is_grid(cells, height as nat),
    ensures
        painted_all(cells, rects, order, width, height).len() == width,
        is_grid(painted_all(cells, rects, order, width, height), height as nat),
    decreases order.len(),
{
    if order.len() > 0 {
        lemma_painted_all_grid(cells, rects, order.drop_last(), width, height);
        let before = painted_all(cells, rects, order.drop_last(), width, height);
        let after = painted_all(cells, rects, order, width, height);
        assert forall|x: int| 0 <= x < after.len() implies (#[trigger] after[x]).len()
            == height as nat by {
            assert(before[x].len() == height as nat);
        }
    }
}

/// Once a rectangle is painted, its cells keep its colour: in a valid
/// order, what is painted later starts to the right of it or above it.
pub proof fn lemma_colour_stays(
    cells: Seq<Seq<Color>>,
    rects: Seq<SolutionRect>,
    order: Seq<int>,
    width: int,
    height: int,
    k: int,
    upto: int,
    x: int,
    y: int,
)
    requires
        cells.len() == width,
        is_grid(cells, height as nat),
        0 < width <= i32::MAX,
        0 < height <= i32::MAX,
        valid_order(rects, order),
        0 <= k < upto <= order.len(),
        0 <= x < width,
        0 <= y < height,
        rects[order[k]].from.x <= x < rects[order[k]].to.x,
        rects[order[k]].from.y <= y < rects[order[k]].to.y,
    ensures
        painted_all(cells, rects, order.take(upto), width, height)[x][y] == rects[order[k]].color,
    decreases upto,
{
    let now = order.take(upto);
    let earlier = order.take(upto - 1);
    assert(now.drop_last() =~= earlier);
    assert(now.last() == order[upto - 1]);
    lemma_painted_all_grid(cells, rects, earlier, width, height);
    let before = painted_all(cells, rects, earlier, width, height);
    assert(before[x].len() == height as nat);
    if upto - 1 == k {
        assert(corner_rect(rects[order[k]].from, width, height).contains(x, y));
    } else {
        lemma_colour_stays(cells, rects, order, width, height, k, upto - 1, x, y);
        let later = rects[order[upto - 1]];
        assert(order[k] != order[upto - 1] && !must_precede(rects, order[upto - 1], order[k]));
        assert(!corner_rect(later.from, width, height).contains(x, y));
    }
}

/// The program of the scheduler paints the picture that was asked for.
///
/// Where the scheduler can paint every rectangle and every rectangle
/// starts on the canvas, the instructions that it gives are never refused
/// on a canvas of one block with the number from which they count, and
/// after them every cell of the canvas that lies in one of the rectangles
/// has the colour of that rectangle.
pub proof fn lemma_program_paints_picture(
    s: CanvasView,
    whole: nat,
    rects: Seq<SolutionRect>,
    i: int,
    x: int,
    y: int,
)
    requires
        one_block(s, whole),
        schedulable(rects),
        forall|j: int|
            0 <= j < rects.len() ==> on_canvas(
                (#[trigger] rects[j]).from,
                s.partition.width,
                s.partition.height,
            ),
        0 <= i < rects.len(),
        0 <= x < s.partition.width,
        0 <= y < s.partition.height,
        rects[i].from.x <= x < rects[i].to.x,
        rects[i].from.y <= y < rects[i].to.y,
    ensures
        s.run(emitted(rects, paint_order(rects), whole)) is Ok,
        s.run(emitted(rects, paint_order(rects), whole))->Ok_0.cells[x][y] == rects[i].color,
{
    let order = paint_order(rects);
    lemma_paint_order_valid(rects);
    assert forall|k: int| 0 <= k < order.len() implies on_canvas(
        (#[trigger] rects[order[k]]).from,
        s.partition.width,
        s.partition.height,
    ) by {
        assert(0 <= order[k] < rects.len());
    }
    lemma_paint_all(s, whole, rects, order);
    assert(order.contains(i));
    let k = choose|k: int| 0 <= k < order.len() && order[k] == i;
    lemma_colour_stays(
        s.cells,
        rects,
        order,
        s.partition.width,
        s.partition.height,
        k,
        order.len() as int,
        x,
        y,
    );
    assert(order.take(order.len() as int) =~= order);
}

/// A fresh canvas is one block with the number 0.
pub proof fn lemma_fresh_canvas(width: int, height: int)
    requires
        0 < width <= i32::MAX,
        0 < height <= i32::MAX,
    ensures
        one_block(CanvasView::initial(width, height), 0),
{
    let s = CanvasView::initial(width, height);
    lemma_initial_wf(width, height);
    assert(decimal(0) =~= root_id());
    assert forall|x: int| 0 <= x < s.cells.len() implies (#[trigger] s.cells[x]).len()
        == height as nat by {}
}

} // verus!
