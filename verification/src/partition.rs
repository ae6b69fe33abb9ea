//! The block partition: the live blocks of a canvas and their rectangles.
//!
//! The blocks of a partition never overlap and together have the area of
//! the canvas. A cut replaces one block by two or four that fill the same
//! rectangle; a merge replaces two adjacent blocks by one.

use vstd::prelude::*;
use crate::block_id::{
    child_id, child_of, copy_id, decimal, descends_from, get_start_id, lemma_child_names,
    lemma_decimal_digits, lemma_decimal_injective, lemma_decimal_is_top_level, lemma_siblings,
    minted_id, root_id, same_id,
};
use crate::error::Error;
use crate::geometry::{lemma_half_areas, lemma_hull_area, lemma_quadrant_areas, Point, Rect};

verus! {

/// The direction of a line cut. `X` cuts along the vertical line at an x
/// coordinate, `Y` along the horizontal line at a y coordinate.
#[derive(Clone, Copy, Debug, PartialEq, Eq, Hash, Structural)]
pub enum Axis {
    X,
    Y,
}

/// A live block: its identifier and the rectangle that it covers.
#[derive(Debug, PartialEq, Eq)]
pub struct Block {
    pub id: Vec<u8>,
    pub rect: Rect,
}

/// A live block as specifications see it.
pub struct BlockView {
    pub id: Seq<u8>,
    pub rect: Rect,
}

impl View for Block {
    type V = BlockView;

    open spec fn view(&self) -> BlockView {
        BlockView { id: self.id@, rect: self.rect }
    }
}

/// The areas of the blocks, added up.
pub open spec fn total_area(blocks: Seq<BlockView>) -> int
    decreases blocks.len(),
{
    if blocks.len() == 0 {
        0
    } else {
        total_area(blocks.drop_last()) + blocks.last().rect.area()
    }
}

/// Whether the cell with lower left corner `(x, y)` lies in one of the
/// blocks.
pub open spec fn covered(blocks: Seq<BlockView>, x: int, y: int) -> bool {
    exists|i: int| 0 <= i < blocks.len() && (#[trigger] blocks[i]).rect.contains(x, y)
}

/// Whether the cell with lower left corner `(x, y)` lies in one of the
/// rectangles.
pub open spec fn reached(rects: Seq<Rect>, x: int, y: int) -> bool {
    exists|k: int| 0 <= k < rects.len() && (#[trigger] rects[k]).contains(x, y)
}

/// Whether some block in `blocks` has the identifier `id`.
pub open spec fn has_id(blocks: Seq<BlockView>, id: Seq<u8>) -> bool {
    exists|i: int| 0 <= i < blocks.len() && #[trigger] blocks[i].id == id
}

/// The place of a block with identifier `id` in `blocks`.
pub open spec fn place_of(blocks: Seq<BlockView>, id: Seq<u8>) -> int {
    choose|i: int| 0 <= i < blocks.len() && #[trigger] blocks[i].id == id
}

/// `blocks` without the block that has the identifier `id`.
pub open spec fn without(blocks: Seq<BlockView>, id: Seq<u8>) -> Seq<BlockView> {
    blocks.remove(place_of(blocks, id))
}

/// The blocks `id.0`, `id.1`, ... with the given rectangles.
pub open spec fn children(id: Seq<u8>, rects: Seq<Rect>) -> Seq<BlockView> {
    Seq::new(rects.len(), |k: int| BlockView { id: child_of(id, k), rect: rects[k] })
}

/// The four quadrants into which the point `p` cuts `r`: bottom left,
/// bottom right, top right, top left.
pub open spec fn quadrants(r: Rect, p: Point) -> Seq<Rect> {
    seq![
        Rect { from: r.from, to: p },
        Rect { from: Point { x: p.x, y: r.from.y }, to: Point { x: r.to.x, y: p.y } },
        Rect { from: p, to: r.to },
        Rect { from: Point { x: r.from.x, y: p.y }, to: Point { x: p.x, y: r.to.y } },
    ]
}

/// The two halves into which a line at `coordinate` cuts `r`: first the one
/// with the lower coordinates.
pub open spec fn halves(r: Rect, axis: Axis, coordinate: i32) -> Seq<Rect> {
    match axis {
        Axis::X => seq![
            Rect { from: r.from, to: Point { x: coordinate, y: r.to.y } },
            Rect { from: Point { x: coordinate, y: r.from.y }, to: r.to },
        ],
        Axis::Y => seq![
            Rect { from: r.from, to: Point { x: r.to.x, y: coordinate } },
            Rect { from: Point { x: r.from.x, y: coordinate }, to: r.to },
        ],
    }
}

/// Whether a line cut of `r` at `coordinate` lies strictly inside `r`.
pub open spec fn line_inside(r: Rect, axis: Axis, coordinate: i32) -> bool {
    match axis {
        Axis::X => r.from.x < coordinate < r.to.x && r.from.y < r.to.y,
        Axis::Y => r.from.y < coordinate < r.to.y && r.from.x < r.to.x,
    }
}

/// What a partition is: its live blocks, the size of its canvas, and the
/// number that the latest merge has given out.
pub struct PartitionView {
    pub blocks: Seq<BlockView>,
    pub width: int,
    pub height: int,
    pub minted: nat,
}

impl PartitionView {
    /// The partition of a fresh canvas: the root block alone.
    pub open spec fn initial(width: int, height: int) -> PartitionView {
        PartitionView {
            blocks: seq![
                BlockView {
                    id: root_id(),
                    rect: Rect {
                        from: Point { x: 0, y: 0 },
                        to: Point { x: width as i32, y: height as i32 },
                    },
                },
            ],
            width,
            height,
            minted: 0,
        }
    }

    /// Whether `id` names a live block.
    pub open spec fn live(self, id: Seq<u8>) -> bool {
        has_id(self.blocks, id)
    }

    /// The rectangle of the live block `id`.
    pub open spec fn rect_of(self, id: Seq<u8>) -> Rect {
        self.blocks[place_of(self.blocks, id)].rect
    }

    /// Every block lies on the canvas and has at least one cell, no two
    /// blocks overlap, the areas of all blocks add up to the area of the
    /// canvas, and every cell of the canvas lies in a block.
    pub open spec fn tiles(self) -> bool {
        &&& forall|i: int|
            0 <= i < self.blocks.len() ==> (#[trigger] self.blocks[i]).rect.within(
                self.width,
                self.height,
            )
        &&& forall|i: int, j: int|
            0 <= i < self.blocks.len() && 0 <= j < self.blocks.len() && i != j ==> (
            #[trigger] self.blocks[i]).rect.disjoint((#[trigger] self.blocks[j]).rect)
        &&& total_area(self.blocks) == self.width * self.height
        &&& forall|x: int, y: int|
            0 <= x < self.width && 0 <= y < self.height ==> #[trigger] covered(self.blocks, x, y)
    }

    /// No two live blocks have the same name, no live block is named as a
    /// descendant of another, and none is named by, or as a descendant of, a
    /// number that no merge has given out yet.
    pub open spec fn names_ok(self) -> bool {
        &&& forall|i: int, j: int|
            0 <= i < self.blocks.len() && 0 <= j < self.blocks.len() && i != j ==> (
            #[trigger] self.blocks[i]).id != (#[trigger] self.blocks[j]).id
        &&& forall|i: int, j: int|
            0 <= i < self.blocks.len() && 0 <= j < self.blocks.len() ==> !descends_from(
                (#[trigger] self.blocks[i]).id,
                (#[trigger] self.blocks[j]).id,
            )
        &&& forall|i: int, n: nat|
            0 <= i < self.blocks.len() && n > self.minted ==> (#[trigger] self.blocks[i]).id
                != #[trigger] decimal(n) && !descends_from(self.blocks[i].id, decimal(n))
    }

    /// The invariant of a partition.
    pub open spec fn wf(self) -> bool {
        &&& 0 < self.width <= i32::MAX
        &&& 0 < self.height <= i32::MAX
        &&& self.tiles()
        &&& self.names_ok()
    }

    /// The partition after block `id` has made way for children with the
    /// given rectangles.
    pub open spec fn split(self, id: Seq<u8>, rects: Seq<Rect>) -> PartitionView {
        PartitionView { blocks: without(self.blocks, id) + children(id, rects), ..self }
    }

    /// The partition after a point cut of block `id` at `p`.
    pub open spec fn cut_point(self, id: Seq<u8>, p: Point) -> PartitionView {
        self.split(id, quadrants(self.rect_of(id), p))
    }

    /// The partition after a line cut of block `id`.
    pub open spec fn cut_axis(self, id: Seq<u8>, axis: Axis, coordinate: i32) -> PartitionView {
        self.split(id, halves(self.rect_of(id), axis, coordinate))
    }

    /// The partition after the blocks `a` and `b` have been merged: both are
    /// gone, and a block with the next number covers their union.
    pub open spec fn merge(self, a: Seq<u8>, b: Seq<u8>) -> PartitionView {
        PartitionView {
            blocks: without(without(self.blocks, a), b).push(
                BlockView {
                    id: decimal(self.minted + 1),
                    rect: self.rect_of(a).hull(self.rect_of(b)),
                },
            ),
            minted: self.minted + 1,
            ..self
        }
    }
}

/// Whether `rects` cut `parent` up: each has a cell and lies in `parent`,
/// no two overlap, and every cell of `parent` lies in one of them.
pub open spec fn subdivides(rects: Seq<Rect>, parent: Rect) -> bool {
    &&& forall|k: int|
        0 <= k < rects.len() ==> (#[trigger] rects[k]).nonempty() && parent.from.x
            <= rects[k].from.x && rects[k].to.x <= parent.to.x && parent.from.y
            <= rects[k].from.y && rects[k].to.y <= parent.to.y
    &&& forall|j: int, k: int|
        0 <= j < rects.len() && 0 <= k < rects.len() && j != k ==> (#[trigger] rects[j]).disjoint(
            #[trigger] rects[k],
        )
    &&& forall|x: int, y: int| parent.contains(x, y) ==> #[trigger] reached(rects, x, y)
}

/// Adding a block adds its area.
pub proof fn lemma_total_area_push(blocks: Seq<BlockView>, b: BlockView)
    ensures
        total_area(blocks.push(b)) == total_area(blocks) + b.rect.area(),
{
    assert(blocks.push(b).drop_last() =~= blocks);
}

/// Taking a block away takes its area away.
pub proof fn lemma_total_area_remove(blocks: Seq<BlockView>, i: int)
    requires
        0 <= i < blocks.len(),
    ensures
        total_area(blocks.remove(i)) == total_area(blocks) - blocks[i].rect.area(),
    decreases blocks.len(),
{
    if i == blocks.len() - 1 {
        assert(blocks.remove(i) =~= blocks.drop_last());
    } else {
        assert(blocks.remove(i).drop_last() =~= blocks.drop_last().remove(i));
        assert(blocks.remove(i).last() == blocks.last());
        lemma_total_area_remove(blocks.drop_last(), i);
    }
}

/// The areas of two runs of blocks add up.
pub proof fn lemma_total_area_concat(a: Seq<BlockView>, b: Seq<BlockView>)
    ensures
        total_area(a + b) == total_area(a) + total_area(b),
    decreases b.len(),
{
    if b.len() == 0 {
        assert(a + b =~= a);
    } else {
        assert((a + b).drop_last() =~= a + b.drop_last());
        assert((a + b).last() == b.last());
        lemma_total_area_concat(a, b.drop_last());
    }
}

/// Where names are not shared, a name has one place only.
pub proof fn lemma_place_of(blocks: Seq<BlockView>, i: int)
    requires
        0 <= i < blocks.len(),
        forall|j: int, k: int|
            0 <= j < blocks.len() && 0 <= k < blocks.len() && j != k ==> (#[trigger] blocks[j]).id
                != (#[trigger] blocks[k]).id,
    ensures
        has_id(blocks, blocks[i].id),
        place_of(blocks, blocks[i].id) == i,
{
    let id = blocks[i].id;
    assert(blocks[i].id == id);
    let p = place_of(blocks, id);
    assert(0 <= p < blocks.len() && blocks[p].id == id);
}

/// The place in `blocks` of what stands at place `i` once the block at place
/// `k` is gone.
pub open spec fn place_before_removal(k: int, i: int) -> int {
    if i < k {
        i
    } else {
        i + 1
    }
}

/// A cut keeps the invariant: where the new rectangles cut the old one up
/// and have its area together, the partition after the cut is well formed.
pub proof fn lemma_split_wf(pv: PartitionView, id: Seq<u8>, rects: Seq<Rect>)
    requires
        pv.wf(),
        pv.live(id),
        rects.len() <= 10,
        subdivides(rects, pv.rect_of(id)),
        total_area(children(id, rects)) == pv.rect_of(id).area(),
    ensures
        pv.split(id, rects).wf(),
{
    let old_blocks = pv.blocks;
    let k = place_of(old_blocks, id);
    let rest = old_blocks.remove(k);
    let kids = children(id, rects);
    let after = pv.split(id, rects);
    let parent = old_blocks[k].rect;
    old_blocks.remove_ensures(k);
    assert(after.blocks == rest + kids);
    assert(after.blocks.len() == rest.len() + kids.len());
    assert forall|i: int| 0 <= i < rest.len() implies #[trigger] after.blocks[i]
        == old_blocks[place_before_removal(k, i)] by {}
    assert forall|i: int| rest.len() <= i < after.blocks.len() implies #[trigger] after.blocks[i]
        == kids[i - rest.len()] by {}
    // The rectangles tile the canvas.
    assert forall|i: int| 0 <= i < after.blocks.len() implies (
    #[trigger] after.blocks[i]).rect.within(after.width, after.height) by {
        if i < rest.len() {
            assert(old_blocks[place_before_removal(k, i)].rect.within(pv.width, pv.height));
        } else {
            assert(rects[i - rest.len()].nonempty());
            assert(old_blocks[k].rect.within(pv.width, pv.height));
        }
    }
    assert forall|i: int, j: int|
        0 <= i < after.blocks.len() && 0 <= j < after.blocks.len() && i != j implies (
    #[trigger] after.blocks[i]).rect.disjoint((#[trigger] after.blocks[j]).rect) by {
        if i < rest.len() && j < rest.len() {
            let si = place_before_removal(k, i);
            let sj = place_before_removal(k, j);
            assert(old_blocks[si].rect.disjoint(old_blocks[sj].rect));
        } else if i < rest.len() {
            let si = place_before_removal(k, i);
            assert(old_blocks[si].rect.disjoint(old_blocks[k].rect));
            assert(rects[j - rest.len()].nonempty());
        } else if j < rest.len() {
            let sj = place_before_removal(k, j);
            assert(old_blocks[k].rect.disjoint(old_blocks[sj].rect));
            assert(old_blocks[sj].rect.disjoint(old_blocks[k].rect));
            assert(rects[i - rest.len()].nonempty());
        } else {
            assert(rects[i - rest.len()].disjoint(rects[j - rest.len()]));
        }
    }
    lemma_total_area_remove(old_blocks, k);
    lemma_total_area_concat(rest, kids);
    assert forall|x: int, y: int|
        0 <= x < after.width && 0 <= y < after.height implies #[trigger] covered(
        after.blocks,
        x,
        y,
    ) by {
        assert(covered(old_blocks, x, y));
        let i = choose|i: int| 0 <= i < old_blocks.len() && old_blocks[i].rect.contains(x, y);
        if i == k {
            assert(reached(rects, x, y));
            let c = choose|c: int| 0 <= c < rects.len() && rects[c].contains(x, y);
            assert(after.blocks[rest.len() + c].rect.contains(x, y));
        } else {
            let j = if i < k {
                i
            } else {
                i - 1
            };
            assert(place_before_removal(k, j) == i);
            assert(after.blocks[j].rect.contains(x, y));
        }
    }
    // The names stay apart.
    assert forall|i: int, j: int|
        0 <= i < after.blocks.len() && 0 <= j < after.blocks.len() && i != j implies (
    #[trigger] after.blocks[i]).id != (#[trigger] after.blocks[j]).id by {
        if i < rest.len() && j < rest.len() {
            let si = place_before_removal(k, i);
            let sj = place_before_removal(k, j);
            assert(old_blocks[si].id != old_blocks[sj].id);
        } else if i < rest.len() {
            let si = place_before_removal(k, i);
            lemma_child_names(id, j - rest.len(), old_blocks[si].id, 0);
            assert(!descends_from(old_blocks[si].id, old_blocks[k].id));
        } else if j < rest.len() {
            let sj = place_before_removal(k, j);
            lemma_child_names(id, i - rest.len(), old_blocks[sj].id, 0);
            assert(!descends_from(old_blocks[sj].id, old_blocks[k].id));
        } else {
            lemma_siblings(id, i - rest.len(), j - rest.len());
        }
    }
    assert forall|i: int, j: int|
        0 <= i < after.blocks.len() && 0 <= j < after.blocks.len() implies !descends_from(
        (#[trigger] after.blocks[i]).id,
        (#[trigger] after.blocks[j]).id,
    ) by {
        if i < rest.len() && j < rest.len() {
            let si = place_before_removal(k, i);
            let sj = place_before_removal(k, j);
            assert(!descends_from(old_blocks[si].id, old_blocks[sj].id));
        } else if i < rest.len() {
            let si = place_before_removal(k, i);
            lemma_child_names(id, j - rest.len(), old_blocks[si].id, 0);
            assert(!descends_from(old_blocks[si].id, old_blocks[k].id));
        } else if j < rest.len() {
            let sj = place_before_removal(k, j);
            lemma_child_names(id, i - rest.len(), old_blocks[sj].id, 0);
            assert(old_blocks[sj].id != old_blocks[k].id);
            assert(!descends_from(old_blocks[k].id, old_blocks[sj].id));
        } else {
            lemma_siblings(id, i - rest.len(), j - rest.len());
        }
    }
    assert forall|i: int, n: nat| 0 <= i < after.blocks.len() && n > after.minted implies (
    #[trigger] after.blocks[i]).id != #[trigger] decimal(n) && !descends_from(
        after.blocks[i].id,
        decimal(n),
    ) by {
        if i < rest.len() {
            let si = place_before_removal(k, i);
            assert(old_blocks[si].id != decimal(n) && !descends_from(
                old_blocks[si].id,
                decimal(n),
            ));
        } else {
            lemma_child_names(id, i - rest.len(), decimal(n), n);
            assert(old_blocks[k].id != decimal(n) && !descends_from(old_blocks[k].id, decimal(n)));
        }
    }
}

/// A point cut keeps the invariant.
pub proof fn lemma_cut_point_wf(pv: PartitionView, id: Seq<u8>, p: Point)
    requires
        pv.wf(),
        pv.live(id),
        pv.rect_of(id).strictly_contains(p),
    ensures
        pv.cut_point(id, p).wf(),
{
    let r = pv.rect_of(id);
    let q = quadrants(r, p);
    let kids = children(id, q);
    lemma_quadrant_areas(r, p);
    assert(total_area(kids) == r.area()) by {
        reveal_with_fuel(total_area, 5);
        assert(kids.drop_last().drop_last().drop_last().drop_last().len() == 0);
    }
    assert forall|x: int, y: int| r.contains(x, y) implies #[trigger] reached(q, x, y) by {
        let c: int = if y < p.y {
            if x < p.x {
                0
            } else {
                1
            }
        } else {
            if x < p.x {
                3
            } else {
                2
            }
        };
        assert(q[c].contains(x, y));
    }
    lemma_split_wf(pv, id, q);
}

/// A line cut keeps the invariant.
pub proof fn lemma_cut_axis_wf(pv: PartitionView, id: Seq<u8>, axis: Axis, coordinate: i32)
    requires
        pv.wf(),
        pv.live(id),
        line_inside(pv.rect_of(id), axis, coordinate),
    ensures
        pv.cut_axis(id, axis, coordinate).wf(),
{
    let r = pv.rect_of(id);
    let h = halves(r, axis, coordinate);
    let kids = children(id, h);
    lemma_half_areas(r, h[0], h[1]);
    assert(total_area(kids) == r.area()) by {
        reveal_with_fuel(total_area, 3);
        assert(kids.drop_last().drop_last().len() == 0);
    }
    assert forall|x: int, y: int| r.contains(x, y) implies #[trigger] reached(h, x, y) by {
        let c: int = if h[0].contains(x, y) {
            0
        } else {
            1
        };
        assert(h[c].contains(x, y));
    }
    lemma_split_wf(pv, id, h);
}

/// A merge keeps the invariant: where the two blocks share a whole edge, the
/// partition after the merge is well formed.
pub proof fn lemma_merge_wf(pv: PartitionView, a: Seq<u8>, b: Seq<u8>)
    requires
        pv.wf(),
        pv.live(a),
        pv.live(b),
        pv.rect_of(a).mergeable(pv.rect_of(b)),
    ensures
        pv.merge(a, b).wf(),
        a != b,
        has_id(without(pv.blocks, a), b),
{
    let old_blocks = pv.blocks;
    let ka = place_of(old_blocks, a);
    let kb = place_of(old_blocks, b);
    let ra = old_blocks[ka].rect;
    let rb = old_blocks[kb].rect;
    assert(ra.within(pv.width, pv.height));
    assert(rb.within(pv.width, pv.height));
    lemma_hull_area(ra, rb);
    let hull = ra.hull(rb);
    assert(ka != kb);
    let rest1 = old_blocks.remove(ka);
    old_blocks.remove_ensures(ka);
    let kb1 = if kb < ka {
        kb
    } else {
        kb - 1
    };
    assert(rest1[kb1] == old_blocks[kb]);
    assert forall|i: int, j: int|
        0 <= i < rest1.len() && 0 <= j < rest1.len() && i != j implies (#[trigger] rest1[i]).id != (
    #[trigger] rest1[j]).id by {
        let si = place_before_removal(ka, i);
        let sj = place_before_removal(ka, j);
        assert(old_blocks[si].id != old_blocks[sj].id);
    }
    lemma_place_of(rest1, kb1);
    let rest2 = rest1.remove(kb1);
    rest1.remove_ensures(kb1);
    let fresh = BlockView { id: decimal(pv.minted + 1), rect: hull };
    let after = pv.merge(a, b);
    assert(after.blocks == rest2.push(fresh));
    assert forall|i: int| 0 <= i < rest2.len() implies {
        let s = place_before_removal(ka, place_before_removal(kb1, i));
        &&& #[trigger] after.blocks[i] == old_blocks[s]
        &&& 0 <= s < old_blocks.len()
        &&& s != ka
        &&& s != kb
    } by {}
    assert(after.blocks[rest2.len() as int] == fresh);
    // The rectangles tile the canvas.
    assert forall|i: int| 0 <= i < after.blocks.len() implies (
    #[trigger] after.blocks[i]).rect.within(after.width, after.height) by {
        if i < rest2.len() {
            let s = place_before_removal(ka, place_before_removal(kb1, i));
            assert(old_blocks[s].rect.within(pv.width, pv.height));
        }
    }
    assert forall|i: int, j: int|
        0 <= i < after.blocks.len() && 0 <= j < after.blocks.len() && i != j implies (
    #[trigger] after.blocks[i]).rect.disjoint((#[trigger] after.blocks[j]).rect) by {
        if i < rest2.len() && j < rest2.len() {
            let si = place_before_removal(ka, place_before_removal(kb1, i));
            let sj = place_before_removal(ka, place_before_removal(kb1, j));
            assert(old_blocks[si].rect.disjoint(old_blocks[sj].rect));
        } else if i < rest2.len() {
            let si = place_before_removal(ka, place_before_removal(kb1, i));
            assert(old_blocks[si].rect.within(pv.width, pv.height));
            assert(old_blocks[si].rect.disjoint(old_blocks[ka].rect));
            assert(old_blocks[si].rect.disjoint(old_blocks[kb].rect));
        } else {
            let sj = place_before_removal(ka, place_before_removal(kb1, j));
            assert(old_blocks[sj].rect.within(pv.width, pv.height));
            assert(old_blocks[sj].rect.disjoint(old_blocks[ka].rect));
            assert(old_blocks[sj].rect.disjoint(old_blocks[kb].rect));
        }
    }
    lemma_total_area_remove(old_blocks, ka);
    lemma_total_area_remove(rest1, kb1);
    lemma_total_area_push(rest2, fresh);
    assert forall|x: int, y: int|
        0 <= x < after.width && 0 <= y < after.height implies #[trigger] covered(
        after.blocks,
        x,
        y,
    ) by {
        assert(covered(old_blocks, x, y));
        let i = choose|i: int| 0 <= i < old_blocks.len() && old_blocks[i].rect.contains(x, y);
        if i == ka || i == kb {
            assert(after.blocks[rest2.len() as int].rect.contains(x, y));
        } else {
            let i1 = if i < ka {
                i
            } else {
                i - 1
            };
            let i2 = if i1 < kb1 {
                i1
            } else {
                i1 - 1
            };
            assert(place_before_removal(ka, place_before_removal(kb1, i2)) == i);
            assert(after.blocks[i2].rect.contains(x, y));
        }
    }
    // The names stay apart.
    let m: nat = pv.minted + 1;
    assert forall|i: int, j: int|
        0 <= i < after.blocks.len() && 0 <= j < after.blocks.len() && i != j implies (
    #[trigger] after.blocks[i]).id != (#[trigger] after.blocks[j]).id by {
        if i < rest2.len() && j < rest2.len() {
            let si = place_before_removal(ka, place_before_removal(kb1, i));
            let sj = place_before_removal(ka, place_before_removal(kb1, j));
            assert(old_blocks[si].id != old_blocks[sj].id);
        } else if i < rest2.len() {
            let si = place_before_removal(ka, place_before_removal(kb1, i));
            assert(old_blocks[si].id != decimal(m));
        } else {
            let sj = place_before_removal(ka, place_before_removal(kb1, j));
            assert(old_blocks[sj].id != decimal(m));
        }
    }
    assert forall|i: int, j: int|
        0 <= i < after.blocks.len() && 0 <= j < after.blocks.len() implies !descends_from(
        (#[trigger] after.blocks[i]).id,
        (#[trigger] after.blocks[j]).id,
    ) by {
        if i < rest2.len() && j < rest2.len() {
            let si = place_before_removal(ka, place_before_removal(kb1, i));
            let sj = place_before_removal(ka, place_before_removal(kb1, j));
            assert(!descends_from(old_blocks[si].id, old_blocks[sj].id));
        } else if i < rest2.len() {
            let si = place_before_removal(ka, place_before_removal(kb1, i));
            assert(!descends_from(old_blocks[si].id, decimal(m)));
        } else {
            lemma_decimal_is_top_level(m, after.blocks[j].id);
        }
    }
    assert forall|i: int, n: nat| 0 <= i < after.blocks.len() && n > after.minted implies (
    #[trigger] after.blocks[i]).id != #[trigger] decimal(n) && !descends_from(
        after.blocks[i].id,
        decimal(n),
    ) by {
        if i < rest2.len() {
            let si = place_before_removal(ka, place_before_removal(kb1, i));
            assert(old_blocks[si].id != decimal(n) && !descends_from(
                old_blocks[si].id,
                decimal(n),
            ));
        } else {
            lemma_decimal_is_top_level(m, decimal(n));
            if decimal(m) == decimal(n) {
                lemma_decimal_injective(m, n);
            }
        }
    }
}

/// The partition of a fresh canvas is well formed.
pub proof fn lemma_initial_wf(width: int, height: int)
    requires
        0 < width <= i32::MAX,
        0 < height <= i32::MAX,
    ensures
        PartitionView::initial(width, height).wf(),
{
    let pv = PartitionView::initial(width, height);
    assert(pv.blocks.drop_last().len() == 0);
    assert(total_area(pv.blocks) == width * height) by {
        reveal_with_fuel(total_area, 2);
    }
    assert forall|x: int, y: int| 0 <= x < width && 0 <= y < height implies #[trigger] covered(
        pv.blocks,
        x,
        y,
    ) by {
        assert(pv.blocks[0].rect.contains(x, y));
    }
    assert forall|i: int, n: nat| 0 <= i < pv.blocks.len() && n > pv.minted implies (
    #[trigger] pv.blocks[i]).id != #[trigger] decimal(n) && !descends_from(
        pv.blocks[i].id,
        decimal(n),
    ) by {
        lemma_decimal_digits(n);
        assert(decimal(0) =~= root_id());
        if root_id() == decimal(n) {
            lemma_decimal_injective(0, n);
        }
    }
}

/// Every cell of the canvas lies in one block, and in one only.
pub proof fn lemma_one_block_per_cell(p: PartitionView, x: int, y: int)
    requires
        p.wf(),
        0 <= x < p.width,
        0 <= y < p.height,
    ensures
        exists|i: int| 0 <= i < p.blocks.len() && (#[trigger] p.blocks[i]).rect.contains(x, y),
        forall|i: int, j: int|
            0 <= i < p.blocks.len() && 0 <= j < p.blocks.len() && (
            #[trigger] p.blocks[i]).rect.contains(x, y) && (#[trigger] p.blocks[j]).rect.contains(
                x,
                y,
            ) ==> i == j,
{
    assert(covered(p.blocks, x, y));
    assert forall|i: int, j: int|
        0 <= i < p.blocks.len() && 0 <= j < p.blocks.len() && (
        #[trigger] p.blocks[i]).rect.contains(x, y) && (#[trigger] p.blocks[j]).rect.contains(
            x,
            y,
        ) implies i == j by {
        if i != j {
            assert(p.blocks[i].rect.disjoint(p.blocks[j].rect));
        }
    }
}

/// The block partition of a canvas.
#[derive(Debug, PartialEq, Eq)]
pub struct Partition {
    blocks: Vec<Block>,
    width: i32,
    height: i32,
    minted: u64,
}

impl View for Partition {
    type V = PartitionView;

    closed spec fn view(&self) -> PartitionView {
        PartitionView {
            blocks: self.blocks@.map_values(|b: Block| b@),
            width: self.width as int,
            height: self.height as int,
            minted: self.minted as nat,
        }
    }
}

impl Partition {
    /// The invariant of a partition: see [`PartitionView::wf`].
    pub open spec fn wf(&self) -> bool {
        self@.wf()
    }

    /// The partition of a fresh `width x height` canvas: the root block
    /// alone, covering all of it.
    pub fn new(width: i32, height: i32) -> (p: Partition)
        requires
            0 < width,
            0 < height,
        ensures
            p@ == PartitionView::initial(width as int, height as int),
            p.wf(),
    {
        let mut blocks: Vec<Block> = Vec::new();
        blocks.push(
            Block {
                id: get_start_id(),
                rect: Rect { from: Point { x: 0, y: 0 }, to: Point { x: width, y: height } },
            },
        );
        let p = Partition { blocks, width, height, minted: 0 };
        proof {
            assert(p@.blocks =~= PartitionView::initial(width as int, height as int).blocks);
            lemma_initial_wf(width as int, height as int);
        }
        p
    }

    /// The width of the canvas.
    pub fn width(&self) -> (w: i32)
        ensures
            w == self@.width,
    {
        self.width
    }

    /// The height of the canvas.
    pub fn height(&self) -> (h: i32)
        ensures
            h == self@.height,
    {
        self.height
    }

    /// The number that the latest merge gave to its block; 0 before the
    /// first merge.
    pub fn minted(&self) -> (n: u64)
        ensures
            n == self@.minted,
    {
        self.minted
    }

    /// The number of live blocks.
    pub fn len(&self) -> (n: usize)
        ensures
            n == self@.blocks.len(),
    {
        self.blocks.len()
    }

    /// The live block at place `i`, in the order in which the blocks are
    /// kept.
    pub fn block(&self, i: usize) -> (b: &Block)
        requires
            i < self@.blocks.len(),
        ensures
            b@ == self@.blocks[i as int],
    {
        &self.blocks[i]
    }

    /// The place of the block `id`, if it is live.
    fn find(&self, id: &Vec<u8>) -> (place: Option<usize>)
        ensures
            match place {
                Some(i) => i < self@.blocks.len() && self@.blocks[i as int].id == id@,
                None => !self@.live(id@),
            },
    {
        let mut i: usize = 0;
        while i < self.blocks.len()
            invariant
                i <= self.blocks.len(),
                forall|j: int| 0 <= j < i ==> (#[trigger] self@.blocks[j]).id != id@,
            decreases self.blocks.len() - i,
        {
            if same_id(&self.blocks[i].id, id) {
                return Some(i);
            }
            i += 1;
        }
        None
    }

    /// The rectangle of block `id`, or `UnknownBlock` if no live block has
    /// that name.
    pub fn get(&self, id: &Vec<u8>) -> (found: Result<Rect, Error>)
        requires
            self.wf(),
        ensures
            match found {
                Ok(rect) => self@.live(id@) && rect == self@.rect_of(id@),
                Err(e) => !self@.live(id@) && e == Error::UnknownBlock,
            },
    {
        match self.find(id) {
            Some(i) => {
                proof {
                    lemma_place_of(self@.blocks, i as int);
                }
                Ok(self.blocks[i].rect)
            },
            None => Err(Error::UnknownBlock),
        }
    }

    /// The place of the live block `id`.
    fn place(&self, id: &Vec<u8>) -> (i: usize)
        requires
            self@.live(id@),
        ensures
            i < self@.blocks.len(),
            self@.blocks[i as int].id == id@,
    {
        let ghost k = place_of(self@.blocks, id@);
        let mut i: usize = 0;
        while !same_id(&self.blocks[i].id, id)
            invariant
                0 <= i <= k < self@.blocks.len(),
                self@.blocks[k].id == id@,
                self@.blocks.len() == self.blocks.len(),
                forall|j: int| 0 <= j < self.blocks.len() ==> self@.blocks[j].id == (
                #[trigger] self.blocks[j]).id@,
            decreases k - i,
        {
            i += 1;
        }
        i
    }

    /// Takes the live block `id` out and returns its rectangle.
    fn take(&mut self, id: &Vec<u8>) -> (rect: Rect)
        requires
            old(self)@.live(id@),
            forall|j: int, k: int|
                0 <= j < old(self)@.blocks.len() && 0 <= k < old(self)@.blocks.len() && j != k ==> (
                #[trigger] old(self)@.blocks[j]).id != (#[trigger] old(self)@.blocks[k]).id,
        ensures
            rect == old(self)@.rect_of(id@),
            final(self)@ == (PartitionView {
                blocks: without(old(self)@.blocks, id@),
                ..old(self)@
            }),
    {
        let i: usize = self.place(id);
        proof {
            lemma_place_of(self@.blocks, i as int);
        }
        let b: Block = self.blocks.remove(i);
        proof {
            assert(self@.blocks =~= without(old(self)@.blocks, id@));
        }
        b.rect
    }

    /// Adds a block. The caller sees to the invariant.
    fn put(&mut self, id: Vec<u8>, rect: Rect)
        ensures
            final(self)@ == (PartitionView {
                blocks: old(self)@.blocks.push(BlockView { id: id@, rect }),
                ..old(self)@
            }),
    {
        self.blocks.push(Block { id, rect });
        proof {
            assert(self@.blocks =~= old(self)@.blocks.push(BlockView { id: id@, rect }));
        }
    }

    /// Cuts block `id` at the point `p` into four blocks `id.0` to `id.3`:
    /// bottom left, bottom right, top right, top left. The block must be
    /// live and `p` strictly inside it.
    pub fn cut_point(&mut self, id: &Vec<u8>, p: Point)
        requires
            old(self).wf(),
            old(self)@.live(id@),
            old(self)@.rect_of(id@).strictly_contains(p),
        ensures
            final(self)@ == old(self)@.cut_point(id@, p),
            final(self).wf(),
    {
        let r: Rect = self.take(id);
        self.put(child_id(id, 0), Rect { from: r.from, to: p });
        self.put(
            child_id(id, 1),
            Rect { from: Point { x: p.x, y: r.from.y }, to: Point { x: r.to.x, y: p.y } },
        );
        self.put(child_id(id, 2), Rect { from: p, to: r.to });
        self.put(
            child_id(id, 3),
            Rect { from: Point { x: r.from.x, y: p.y }, to: Point { x: p.x, y: r.to.y } },
        );
        proof {
            assert(self@.blocks =~= old(self)@.cut_point(id@, p).blocks);
            lemma_cut_point_wf(old(self)@, id@, p);
        }
    }

    /// Cuts block `id` along a line into two blocks `id.0` and `id.1`: first
    /// the one with the lower coordinates. The block must be live and the
    /// line strictly inside it.
    pub fn cut_axis(&mut self, id: &Vec<u8>, axis: Axis, coordinate: i32)
        requires
            old(self).wf(),
            old(self)@.live(id@),
            line_inside(old(self)@.rect_of(id@), axis, coordinate),
        ensures
            final(self)@ == old(self)@.cut_axis(id@, axis, coordinate),
            final(self).wf(),
    {
        let r: Rect = self.take(id);
        match axis {
            Axis::X => {
                self.put(
                    child_id(id, 0),
                    Rect { from: r.from, to: Point { x: coordinate, y: r.to.y } },
                );
                self.put(
                    child_id(id, 1),
                    Rect { from: Point { x: coordinate, y: r.from.y }, to: r.to },
                );
            },
            Axis::Y => {
                self.put(
                    child_id(id, 0),
                    Rect { from: r.from, to: Point { x: r.to.x, y: coordinate } },
                );
                self.put(
                    child_id(id, 1),
                    Rect { from: Point { x: r.from.x, y: coordinate }, to: r.to },
                );
            },
        }
        proof {
            assert(self@.blocks =~= old(self)@.cut_axis(id@, axis, coordinate).blocks);
            lemma_cut_axis_wf(old(self)@, id@, axis, coordinate);
        }
    }

    /// Merges the blocks `id_a` and `id_b` into one that covers their union
    /// and is named by the next unused number, which is returned. Both
    /// blocks must be live and share a whole edge.
    pub fn merge(&mut self, id_a: &Vec<u8>, id_b: &Vec<u8>) -> (id: Vec<u8>)
        requires
            old(self).wf(),
            old(self)@.live(id_a@),
            old(self)@.live(id_b@),
            old(self)@.rect_of(id_a@).mergeable(old(self)@.rect_of(id_b@)),
            old(self)@.minted < u64::MAX,
        ensures
            final(self)@ == old(self)@.merge(id_a@, id_b@),
            final(self).wf(),
            id@ == decimal(old(self)@.minted + 1),
    {
        proof {
            lemma_merge_wf(old(self)@, id_a@, id_b@);
        }
        let at_b: usize = self.place(id_b);
        proof {
            lemma_place_of(self@.blocks, at_b as int);
        }
        let rect_b: Rect = self.blocks[at_b].rect;
        let rect_a: Rect = self.take(id_a);
        proof {
            let old_blocks = old(self)@.blocks;
            let ka = place_of(old_blocks, id_a@);
            old_blocks.remove_ensures(ka);
            assert forall|i: int, j: int|
                0 <= i < self@.blocks.len() && 0 <= j < self@.blocks.len() && i != j implies (
            #[trigger] self@.blocks[i]).id != (#[trigger] self@.blocks[j]).id by {
                let si = place_before_removal(ka, i);
                let sj = place_before_removal(ka, j);
                assert(old_blocks[si].id != old_blocks[sj].id);
            }
        }
        let _gone: Rect = self.take(id_b);
        self.minted = self.minted + 1;
        let id: Vec<u8> = minted_id(self.minted);
        self.put(copy_id(&id), rect_a.union_with(&rect_b));
        proof {
            assert(self@.blocks =~= old(self)@.merge(id_a@, id_b@).blocks);
        }
        id
    }
}

} // verus!
