//! The instruction interpreter: it applies instructions to a block
//! partition, paints a raster, and adds up the cost of what it did.

use vstd::prelude::*;
use crate::color::Color;
use crate::error::Error;
use crate::geometry::Rect;
use crate::op::{program, Op, OpView};
use crate::partition::{
    lemma_cut_axis_wf, lemma_cut_point_wf, lemma_initial_wf, lemma_merge_wf, line_inside,
    place_of, Axis, Partition, PartitionView,
};
use crate::raster::{blank_cells, image_bytes, is_grid, lemma_image_bytes_len, painted, Raster};

verus! {

/// The base cost of a point cut.
pub const POINT_CUT_COST: u64 = 10;

/// The base cost of a line cut.
pub const LINE_CUT_COST: u64 = 7;

/// The base cost of colouring a block.
pub const COLOR_COST: u64 = 5;

/// The base cost of a merge.
pub const MERGE_COST: u64 = 1;

/// The quotient `num / den`, rounded to the nearest integer, halves upwards.
pub open spec fn rounded_ratio(num: int, den: int) -> int {
    (2 * num + den) / (2 * den)
}

/// What an instruction with base cost `base` costs on a block of area
/// `block_area`: `base * canvas_area / block_area`, rounded.
pub open spec fn charge(base: int, canvas_area: int, block_area: int) -> int {
    rounded_ratio(base * canvas_area, block_area)
}

/// The larger of two areas.
pub open spec fn larger(a: int, b: int) -> int {
    if a >= b {
        a
    } else {
        b
    }
}

/// The state of an interpreter: the partition, the colours of the raster by
/// column, and the cost so far.
pub struct CanvasView {
    pub partition: PartitionView,
    pub cells: Seq<Seq<Color>>,
    pub cost: nat,
}

impl CanvasView {
    /// The state before the first instruction: the root block alone, a
    /// white raster, and no cost.
    pub open spec fn initial(width: int, height: int) -> CanvasView {
        CanvasView {
            partition: PartitionView::initial(width, height),
            cells: blank_cells(width as nat, height as nat),
            cost: 0,
        }
    }

    /// The area of the canvas.
    pub open spec fn area(self) -> int {
        self.partition.width * self.partition.height
    }

    /// The invariant of the interpreter: the partition is well formed and
    /// the raster has the size of the canvas.
    pub open spec fn wf(self) -> bool {
        &&& self.partition.wf()
        &&& self.cells.len() == self.partition.width
        &&& is_grid(self.cells, self.partition.height as nat)
    }

    /// Why the instruction cannot be carried out, if it cannot: it names a
    /// block that is not live, cuts outside its block, or merges two blocks
    /// whose union is no rectangle.
    pub open spec fn refusal(self, op: OpView) -> Option<Error> {
        let p = self.partition;
        match op {
            OpView::CutPoint(id, at) => if !p.live(id) {
                Some(Error::UnknownBlock)
            } else if !p.rect_of(id).strictly_contains(at) {
                Some(Error::CutOutsideBlock)
            } else {
                None
            },
            OpView::CutAxis(id, axis, coordinate) => if !p.live(id) {
                Some(Error::UnknownBlock)
            } else if !line_inside(p.rect_of(id), axis, coordinate) {
                Some(Error::CutOutsideBlock)
            } else {
                None
            },
            OpView::Color(id, color) => if !p.live(id) {
                Some(Error::UnknownBlock)
            } else {
                None
            },
            OpView::Merge(a, b) => if !p.live(a) || !p.live(b) {
                Some(Error::UnknownBlock)
            } else if !p.rect_of(a).mergeable(p.rect_of(b)) {
                Some(Error::IncompatibleMerge)
            } else {
                None
            },
        }
    }

    /// What the instruction costs in this state. The areas are those of the
    /// blocks as they are before the instruction.
    pub open spec fn price(self, op: OpView) -> int {
        let p = self.partition;
        match op {
            OpView::CutPoint(id, at) => charge(
                POINT_CUT_COST as int,
                self.area(),
                p.rect_of(id).area(),
            ),
            OpView::CutAxis(id, axis, coordinate) => charge(
                LINE_CUT_COST as int,
                self.area(),
                p.rect_of(id).area(),
            ),
            OpView::Color(id, color) => charge(
                COLOR_COST as int,
                self.area(),
                p.rect_of(id).area(),
            ),
            OpView::Merge(a, b) => charge(
                MERGE_COST as int,
                self.area(),
                larger(p.rect_of(a).area(), p.rect_of(b).area()),
            ),
        }
    }

    /// The partition after the instruction.
    pub open spec fn partition_after(self, op: OpView) -> PartitionView {
        let p = self.partition;
        match op {
            OpView::CutPoint(id, at) => p.cut_point(id, at),
            OpView::CutAxis(id, axis, coordinate) => p.cut_axis(id, axis, coordinate),
            OpView::Color(id, color) => p,
            OpView::Merge(a, b) => p.merge(a, b),
        }
    }

    /// The raster after the instruction: only colouring changes it.
    pub open spec fn cells_after(self, op: OpView) -> Seq<Seq<Color>> {
        match op {
            OpView::Color(id, color) => painted(self.cells, self.partition.rect_of(id), color),
            _ => self.cells,
        }
    }

    /// The state after one instruction, or why it was refused.
    pub open spec fn step(self, op: OpView) -> Result<CanvasView, Error> {
        match self.refusal(op) {
            Some(e) => Err(e),
            None => Ok(
                CanvasView {
                    partition: self.partition_after(op),
                    cells: self.cells_after(op),
                    cost: (self.cost + self.price(op)) as nat,
                },
            ),
        }
    }

    /// The state after the instructions in their order, or why the first
    /// one that could not be carried out was refused.
    pub open spec fn run(self, ops: Seq<OpView>) -> Result<CanvasView, Error>
        decreases ops.len(),
    {
        if ops.len() == 0 {
            Ok(self)
        } else {
            match self.step(ops[0]) {
                Ok(next) => next.run(ops.skip(1)),
                Err(e) => Err(e),
            }
        }
    }
}

/// A charge is never negative and never more than the base cost times the
/// area of the canvas.
pub proof fn lemma_charge_bounds(base: int, canvas_area: int, block_area: int)
    requires
        0 <= base,
        0 <= canvas_area,
        1 <= block_area,
    ensures
        0 <= charge(base, canvas_area, block_area) <= base * canvas_area,
{
    let num = base * canvas_area;
    assert(0 <= num) by (nonlinear_arith)
        requires
            0 <= base,
            0 <= canvas_area,
            num == base * canvas_area,
    ;
    let q = (2 * num + block_area) / (2 * block_area);
    assert(0 <= q <= num) by (nonlinear_arith)
        requires
            0 <= num,
            1 <= block_area,
            q == (2 * num + block_area) / (2 * block_area),
    ;
}

/// One instruction keeps the invariant, leaves the canvas its size, gives
/// out at most one number, and adds its price, which is not negative, to the
/// cost.
pub proof fn lemma_step(s: CanvasView, op: OpView)
    requires
        s.wf(),
        s.step(op) is Ok,
    ensures
        s.step(op)->Ok_0.wf(),
        s.step(op)->Ok_0.partition.width == s.partition.width,
        s.step(op)->Ok_0.partition.height == s.partition.height,
        s.partition.minted <= s.step(op)->Ok_0.partition.minted <= s.partition.minted + 1,
        s.step(op)->Ok_0.cost == s.cost + s.price(op),
        0 <= s.price(op) <= POINT_CUT_COST * s.area(),
{
    let p = s.partition;
    let t = s.step(op)->Ok_0;
    let area = s.area();
    assert(0 < area) by (nonlinear_arith)
        requires
            0 < p.width,
            0 < p.height,
            area == p.width * p.height,
    ;
    match op {
        OpView::CutPoint(id, at) => {
            lemma_cut_point_wf(p, id, at);
            lemma_live_block(p, id);
            lemma_charge_bounds(POINT_CUT_COST as int, area, p.rect_of(id).area());
        },
        OpView::CutAxis(id, axis, coordinate) => {
            lemma_cut_axis_wf(p, id, axis, coordinate);
            lemma_live_block(p, id);
            lemma_charge_bounds(LINE_CUT_COST as int, area, p.rect_of(id).area());
            assert(LINE_CUT_COST * area <= POINT_CUT_COST * area) by (nonlinear_arith)
                requires
                    0 < area,
            ;
        },
        OpView::Color(id, color) => {
            lemma_live_block(p, id);
            lemma_charge_bounds(COLOR_COST as int, area, p.rect_of(id).area());
            assert(COLOR_COST * area <= POINT_CUT_COST * area) by (nonlinear_arith)
                requires
                    0 < area,
            ;
            assert forall|x: int| 0 <= x < t.cells.len() implies (#[trigger] t.cells[x]).len()
                == p.height as nat by {
                assert(s.cells[x].len() == p.height as nat);
            }
        },
        OpView::Merge(a, b) => {
            lemma_merge_wf(p, a, b);
            lemma_live_block(p, a);
            lemma_live_block(p, b);
            lemma_charge_bounds(
                MERGE_COST as int,
                area,
                larger(p.rect_of(a).area(), p.rect_of(b).area()),
            );
            assert(MERGE_COST * area <= POINT_CUT_COST * area) by (nonlinear_arith)
                requires
                    0 < area,
            ;
        },
    }
}

/// A live block of a well-formed partition lies on the canvas and has a
/// cell.
pub proof fn lemma_live_block(p: PartitionView, id: Seq<u8>)
    requires
        p.wf(),
        p.live(id),
    ensures
        p.rect_of(id).within(p.width, p.height),
        1 <= p.rect_of(id).area() <= p.width * p.height,
{
    let k = place_of(p.blocks, id);
    let r = p.blocks[k].rect;
    assert(r.within(p.width, p.height));
    let dx = r.dx();
    let dy = r.dy();
    assert(1 <= dx * dy <= p.width * p.height) by (nonlinear_arith)
        requires
            1 <= dx <= p.width,
            1 <= dy <= p.height,
    ;
}

impl CanvasView {
    /// The raster as image bytes: the rows from the top one down, each from
    /// left to right, four bytes for every pixel.
    pub open spec fn rendering(self) -> Seq<u8> {
        image_bytes(self.cells, self.partition.height as nat, self.partition.height)
    }

    /// The prices of the instructions added up, each taken in the state in
    /// which its instruction finds the canvas. An instruction that is
    /// refused ends the sum.
    pub open spec fn total_price(self, ops: Seq<OpView>) -> int
        decreases ops.len(),
    {
        if ops.len() == 0 {
            0
        } else {
            match self.step(ops[0]) {
                Ok(next) => self.price(ops[0]) + next.total_price(ops.skip(1)),
                Err(e) => 0,
            }
        }
    }
}

/// Running two programs one after the other is running them joined.
pub proof fn lemma_run_concat(s: CanvasView, first: Seq<OpView>, second: Seq<OpView>)
    ensures
        s.run(first + second) == match s.run(first) {
            Ok(middle) => middle.run(second),
            Err(e) => Err(e),
        },
    decreases first.len(),
{
    if first.len() == 0 {
        assert(first + second =~= second);
    } else {
        assert((first + second)[0] == first[0]);
        assert((first + second).skip(1) =~= first.skip(1) + second);
        match s.step(first[0]) {
            Ok(next) => {
                lemma_run_concat(next, first.skip(1), second);
            },
            Err(e) => {},
        }
    }
}

/// A program that runs to its end has carried out each of its instructions:
/// the state after the first `k + 1` of them is the state after the first
/// `k`, stepped once more.
pub proof fn lemma_run_prefix(s: CanvasView, ops: Seq<OpView>, k: int)
    requires
        0 <= k < ops.len(),
        s.run(ops.take(k + 1)) is Ok,
    ensures
        s.run(ops.take(k)) is Ok,
        s.run(ops.take(k + 1)) == s.run(ops.take(k))->Ok_0.step(ops[k]),
{
    let one = seq![ops[k]];
    assert(ops.take(k + 1) =~= ops.take(k) + one);
    lemma_run_concat(s, ops.take(k), one);
    if s.run(ops.take(k)) is Ok {
        let middle = s.run(ops.take(k))->Ok_0;
        assert(one.skip(1).len() == 0);
        assert(middle.run(one) == middle.step(ops[k])) by {
            reveal_with_fuel(CanvasView::run, 2);
        }
    }
}

/// The invariant holds after every instruction: whatever program runs to
/// its end from a well-formed state, it leaves a well-formed state. In it
/// the blocks lie on the canvas, no two of them overlap, and their areas
/// add up to the area of the canvas.
pub proof fn lemma_run_keeps_invariant(s: CanvasView, ops: Seq<OpView>)
    requires
        s.wf(),
        s.run(ops) is Ok,
    ensures
        s.run(ops)->Ok_0.wf(),
        s.run(ops)->Ok_0.partition.tiles(),
        s.run(ops)->Ok_0.partition.width == s.partition.width,
        s.run(ops)->Ok_0.partition.height == s.partition.height,
    decreases ops.len(),
{
    if ops.len() > 0 {
        lemma_step(s, ops[0]);
        lemma_run_keeps_invariant(s.step(ops[0])->Ok_0, ops.skip(1));
    }
}

/// The cost after a program is the cost before it and the prices of its
/// instructions, each computed from the areas that its instruction finds.
pub proof fn lemma_cost_is_sum_of_prices(s: CanvasView, ops: Seq<OpView>)
    requires
        s.wf(),
        s.run(ops) is Ok,
    ensures
        s.run(ops)->Ok_0.cost == s.cost + s.total_price(ops),
        s.total_price(ops) >= 0,
    decreases ops.len(),
{
    if ops.len() > 0 {
        lemma_step(s, ops[0]);
        lemma_cost_is_sum_of_prices(s.step(ops[0])->Ok_0, ops.skip(1));
    }
}

/// The cost never goes down: after the first `k` instructions of a program
/// it is at least what it was after the first `j`, for `j <= k`.
pub proof fn lemma_cost_monotone(s: CanvasView, ops: Seq<OpView>, j: int, k: int)
    requires
        s.wf(),
        0 <= j <= k <= ops.len(),
        s.run(ops.take(k)) is Ok,
    ensures
        s.run(ops.take(j)) is Ok,
        s.run(ops.take(j))->Ok_0.cost <= s.run(ops.take(k))->Ok_0.cost,
{
    let rest = ops.subrange(j, k);
    assert(ops.take(k) =~= ops.take(j) + rest);
    lemma_run_concat(s, ops.take(j), rest);
    let middle = s.run(ops.take(j))->Ok_0;
    lemma_run_keeps_invariant(s, ops.take(j));
    lemma_cost_is_sum_of_prices(middle, rest);
}

impl CanvasView {
    /// The colour of the cell at column `x`, row `y` after the instructions,
    /// told from the instructions alone: the colour of the last colouring
    /// of a block in which the cell lay, and the colour that the cell had
    /// before where no block with the cell was coloured.
    pub open spec fn last_colouring(self, ops: Seq<OpView>, x: int, y: int) -> Color
        decreases ops.len(),
    {
        if ops.len() == 0 {
            self.cells[x][y]
        } else {
            match (self.run(ops.drop_last()), ops.last()) {
                (Ok(before), OpView::Color(id, color)) => if before.partition.rect_of(
                    id,
                ).contains(x, y) {
                    color
                } else {
                    self.last_colouring(ops.drop_last(), x, y)
                },
                _ => self.last_colouring(ops.drop_last(), x, y),
            }
        }
    }
}

/// The raster that the interpreter keeps up to date is the raster that the
/// instructions tell: every cell has the colour of the last colouring of a
/// block in which it lay, and on a fresh canvas it is white where there was
/// none.
pub proof fn lemma_picture_is_last_colouring(s: CanvasView, ops: Seq<OpView>, x: int, y: int)
    requires
        s.wf(),
        s.run(ops) is Ok,
        0 <= x < s.partition.width,
        0 <= y < s.partition.height,
    ensures
        s.run(ops)->Ok_0.cells[x][y] == s.last_colouring(ops, x, y),
    decreases ops.len(),
{
    if ops.len() > 0 {
        let k = ops.len() - 1;
        assert(ops.take(k + 1) =~= ops);
        assert(ops.take(k) =~= ops.drop_last());
        lemma_run_prefix(s, ops, k);
        let before = s.run(ops.drop_last())->Ok_0;
        lemma_run_keeps_invariant(s, ops.drop_last());
        lemma_picture_is_last_colouring(s, ops.drop_last(), x, y);
        assert(before.cells[x].len() == before.partition.height as nat);
    }
}

/// Rendering a canvas twice, with no instruction in between, gives the same
/// bytes both times: four for every pixel of the canvas.
pub proof fn lemma_render_twice(s: CanvasView, first: Seq<u8>, second: Seq<u8>)
    requires
        s.wf(),
        first == s.rendering(),
        s.run(Seq::empty()) is Ok,
        second == s.run(Seq::empty())->Ok_0.rendering(),
    ensures
        s.run(Seq::empty()) == Ok::<CanvasView, Error>(s),
        first == second,
        first.len() == 4 * s.partition.width * s.partition.height,
{
    lemma_image_bytes_len(s.cells, s.partition.height as nat, s.partition.height);
}

/// The result of running a program on a fresh canvas.
#[derive(Debug, PartialEq, Eq)]
pub struct OpResult {
    pub picture: Raster,
    pub cost: u64,
}

/// An interpreter: a block partition, the raster that the instructions
/// paint, and the cost of the instructions so far.
#[derive(Debug, PartialEq, Eq)]
pub struct Canvas {
    partition: Partition,
    raster: Raster,
    cost: u64,
}

impl View for Canvas {
    type V = CanvasView;

    closed spec fn view(&self) -> CanvasView {
        CanvasView { partition: self.partition@, cells: self.raster@, cost: self.cost as nat }
    }
}

/// The charge for an instruction with base cost `base` on a block of area
/// `block_area`.
fn charge_for(base: u64, canvas_area: u64, block_area: u64) -> (c: u64)
    requires
        base <= POINT_CUT_COST,
        1 <= block_area,
        POINT_CUT_COST * canvas_area <= u64::MAX,
    ensures
        c == charge(base as int, canvas_area as int, block_area as int),
{
    proof {
        lemma_charge_bounds(base as int, canvas_area as int, block_area as int);
        assert(base * canvas_area <= POINT_CUT_COST * canvas_area) by (nonlinear_arith)
            requires
                base <= POINT_CUT_COST,
                0 <= canvas_area,
        ;
    }
    let num: u128 = 2 * ((base as u128) * (canvas_area as u128)) + block_area as u128;
    let den: u128 = 2 * (block_area as u128);
    (num / den) as u64
}

impl Canvas {
    /// The invariant of the interpreter: see [`CanvasView::wf`].
    pub open spec fn wf(&self) -> bool {
        &&& self@.wf()
        &&& self.parts_agree()
    }

    /// Whether the raster that is kept has as many rows as the canvas.
    pub closed spec fn parts_agree(&self) -> bool {
        &&& self.raster.wf()
        &&& self.raster.rows() == self@.partition.height
    }

    /// A fresh `width x height` canvas: the root block alone, all pixels
    /// opaque white, no cost.
    pub fn new(width: usize, height: usize) -> (canvas: Canvas)
        requires
            0 < width <= i32::MAX,
            0 < height <= i32::MAX,
        ensures
            canvas.wf(),
            canvas@ == CanvasView::initial(width as int, height as int),
    {
        let canvas = Canvas {
            partition: Partition::new(width as i32, height as i32),
            raster: Raster::new(width, height),
            cost: 0,
        };
        proof {
            lemma_initial_wf(width as int, height as int);
        }
        canvas
    }

    /// The cost of the instructions so far.
    pub fn cost(&self) -> (c: u64)
        ensures
            c == self@.cost,
    {
        self.cost
    }

    /// The raster as the instructions so far have painted it.
    pub fn picture(&self) -> (raster: &Raster)
        ensures
            raster@ == self@.cells,
            self.wf() ==> raster.wf() && raster.rows() == self@.partition.height,
    {
        &self.raster
    }

    /// The block partition as the instructions so far have left it.
    pub fn partition(&self) -> (partition: &Partition)
        ensures
            partition@ == self@.partition,
            self.wf() ==> partition.wf(),
    {
        &self.partition
    }

    /// The raster as image bytes: the rows from the top one down, each from
    /// left to right, each pixel as red, green, blue and alpha. The canvas
    /// stays as it is.
    pub fn render(&self) -> (bytes: Vec<u8>)
        requires
            self.wf(),
        ensures
            bytes@ == self@.rendering(),
    {
        self.raster.to_rgba()
    }

    /// The raster and the cost, once the program has run.
    pub fn finish(self) -> (result: OpResult)
        ensures
            result.picture@ == self@.cells,
            result.cost == self@.cost,
            self.wf() ==> result.picture.wf() && result.picture.rows() == self@.partition.height,
    {
        OpResult { picture: self.raster, cost: self.cost }
    }

    /// The area of the canvas.
    fn area(&self) -> (a: u64)
        requires
            self.wf(),
        ensures
            a == self@.area(),
            0 < a,
    {
        let w: u64 = self.partition.width() as u64;
        let h: u64 = self.partition.height() as u64;
        assert(0 < w * h <= 0x7fff_ffff * 0x7fff_ffff) by (nonlinear_arith)
            requires
                0 < w <= 0x7fff_ffff,
                0 < h <= 0x7fff_ffff,
        ;
        w * h
    }

    /// The area of a live block.
    fn area_of(&self, rect: &Rect) -> (a: u64)
        requires
            rect.within(self@.partition.width, self@.partition.height),
            0 < self@.partition.width <= i32::MAX,
            0 < self@.partition.height <= i32::MAX,
        ensures
            a == rect.area(),
            1 <= a,
    {
        proof {
            let dx = rect.dx();
            let dy = rect.dy();
            assert(1 <= dx * dy) by (nonlinear_arith)
                requires
                    1 <= dx,
                    1 <= dy,
            ;
        }
        rect.size() as u64
    }

    /// Carries out one instruction. An instruction that names a block that
    /// is not live, cuts outside its block or merges two blocks whose union
    /// is no rectangle is refused, and then nothing changes. The cost so
    /// far and ten times the area of the canvas must fit in a `u64`
    /// together, and the numbers for merged blocks must not be used up.
    pub fn apply(&mut self, op: &Op) -> (done: Result<(), Error>)
        requires
            old(self).wf(),
            old(self)@.cost + POINT_CUT_COST * old(self)@.area() <= u64::MAX,
            old(self)@.partition.minted < u64::MAX,
        ensures
            final(self).wf(),
            match old(self)@.step(op@) {
                Ok(next) => done is Ok && final(self)@ == next,
                Err(e) => done == Err::<(), Error>(e) && final(self)@ == old(self)@,
            },
    {
        let canvas_area: u64 = self.area();
        proof {
            if old(self)@.step(op@) is Ok {
                lemma_step(old(self)@, op@);
            }
        }
        match op {
            Op::CutPoint(id, at) => {
                let rect: Rect = match self.partition.get(id) {
                    Ok(rect) => rect,
                    Err(e) => {
                        return Err(e);
                    },
                };
                if !rect.has_inside(*at) {
                    return Err(Error::CutOutsideBlock);
                }
                proof {
                    lemma_live_block(self@.partition, id@);
                }
                let price: u64 = charge_for(POINT_CUT_COST, canvas_area, self.area_of(&rect));
                self.partition.cut_point(id, *at);
                self.cost = self.cost + price;
            },
            Op::CutAxis(id, axis, coordinate) => {
                let rect: Rect = match self.partition.get(id) {
                    Ok(rect) => rect,
                    Err(e) => {
                        return Err(e);
                    },
                };
                let inside: bool = match axis {
                    Axis::X => rect.from.x < *coordinate && *coordinate < rect.to.x && rect.from.y
                        < rect.to.y,
                    Axis::Y => rect.from.y < *coordinate && *coordinate < rect.to.y && rect.from.x
                        < rect.to.x,
                };
                if !inside {
                    return Err(Error::CutOutsideBlock);
                }
                proof {
                    lemma_live_block(self@.partition, id@);
                }
                let price: u64 = charge_for(LINE_CUT_COST, canvas_area, self.area_of(&rect));
                self.partition.cut_axis(id, *axis, *coordinate);
                self.cost = self.cost + price;
            },
            Op::Color(id, color) => {
                let rect: Rect = match self.partition.get(id) {
                    Ok(rect) => rect,
                    Err(e) => {
                        return Err(e);
                    },
                };
                proof {
                    lemma_live_block(self@.partition, id@);
                }
                let price: u64 = charge_for(COLOR_COST, canvas_area, self.area_of(&rect));
                self.raster.fill(&rect, *color);
                self.cost = self.cost + price;
            },
            Op::Merge(id_a, id_b) => {
                let rect_a: Rect = match self.partition.get(id_a) {
                    Ok(rect) => rect,
                    Err(e) => {
                        return Err(e);
                    },
                };
                let rect_b: Rect = match self.partition.get(id_b) {
                    Ok(rect) => rect,
                    Err(e) => {
                        return Err(e);
                    },
                };
                if !rect_a.can_merge_with(&rect_b) {
                    return Err(Error::IncompatibleMerge);
                }
                proof {
                    lemma_live_block(self@.partition, id_a@);
                    lemma_live_block(self@.partition, id_b@);
                }
                let area_a: u64 = self.area_of(&rect_a);
                let area_b: u64 = self.area_of(&rect_b);
                let price: u64 = charge_for(
                    MERGE_COST,
                    canvas_area,
                    if area_a >= area_b {
                        area_a
                    } else {
                        area_b
                    },
                );
                let _id: Vec<u8> = self.partition.merge(id_a, id_b);
                self.cost = self.cost + price;
            },
        }
        Ok(())
    }
}

/// Runs the program on a fresh `n x m` canvas and returns the raster and
/// the cost, or the reason for which the first instruction that could not
/// be carried out was refused. The canvas must not be empty, its sides must
/// fit in an `i32`, and ten times its area for every instruction must fit in
/// a `u64`.
pub fn apply_ops(ops: &[Op], n: usize, m: usize) -> (result: Result<OpResult, Error>)
    requires
        0 < n <= i32::MAX,
        0 < m <= i32::MAX,
        POINT_CUT_COST * (n * m) * ops.len() <= u64::MAX,
    ensures
        match CanvasView::initial(n as int, m as int).run(program(ops@)) {
            Ok(last) => result is Ok && result->Ok_0.picture@ == last.cells && result->Ok_0.cost
                == last.cost && result->Ok_0.picture.wf() && result->Ok_0.picture@.len() == n
                && result->Ok_0.picture.rows() == m,
            Err(e) => result == Err::<OpResult, Error>(e),
        },
{
    let mut canvas: Canvas = Canvas::new(n, m);
    let ghost steps = program(ops@);
    let ghost whole = CanvasView::initial(n as int, m as int).run(steps);
    let ghost each: int = POINT_CUT_COST * (n * m);
    let mut i: usize = 0;
    assert(steps.skip(0) =~= steps);
    while i < ops.len()
        invariant
            i <= ops.len(),
            canvas.wf(),
            steps == program(ops@),
            whole == CanvasView::initial(n as int, m as int).run(steps),
            whole == canvas@.run(steps.skip(i as int)),
            canvas@.partition.width == n,
            canvas@.partition.height == m,
            canvas@.partition.minted <= i,
            each == POINT_CUT_COST * (n * m),
            0 <= each,
            canvas@.cost <= each * i,
            each * ops.len() <= u64::MAX,
        decreases ops.len() - i,
    {
        let ghost before = canvas@;
        proof {
            assert(each * (i + 1) <= each * ops.len()) by (nonlinear_arith)
                requires
                    0 <= each,
                    i + 1 <= ops.len(),
            ;
            assert(each * (i + 1) == each * i + each) by (nonlinear_arith);
            assert(steps.skip(i as int)[0] == ops@[i as int]@);
            assert(steps.skip(i as int).skip(1) =~= steps.skip(i + 1));
            if before.step(ops@[i as int]@) is Ok {
                lemma_step(before, ops@[i as int]@);
            }
        }
        match canvas.apply(&ops[i]) {
            Ok(()) => {},
            Err(e) => {
                assert(steps.skip(i as int).len() > 0);
                return Err(e);
            },
        }
        i += 1;
    }
    Ok(canvas.finish())
}

} // verus!
