//! The instructions of the canvas language.

use vstd::prelude::*;
use crate::block_id::copy_id;
use crate::color::Color;
use crate::geometry::Point;
use crate::partition::Axis;

verus! {

/// One instruction.
#[derive(Debug, PartialEq, Eq)]
pub enum Op {
    /// Cut a block at a point into four.
    CutPoint(Vec<u8>, Point),
    /// Set every pixel of a block to a colour.
    Color(Vec<u8>, Color),
    /// Cut a block along a line into two.
    CutAxis(Vec<u8>, Axis, i32),
    /// Merge two adjacent blocks into one.
    Merge(Vec<u8>, Vec<u8>),
}

/// One instruction as specifications see it.
pub enum OpView {
    CutPoint(Seq<u8>, Point),
    Color(Seq<u8>, Color),
    CutAxis(Seq<u8>, Axis, i32),
    Merge(Seq<u8>, Seq<u8>),
}

impl View for Op {
    type V = OpView;

    open spec fn view(&self) -> OpView {
        match *self {
            Op::CutPoint(id, p) => OpView::CutPoint(id@, p),
            Op::Color(id, color) => OpView::Color(id@, color),
            Op::CutAxis(id, axis, coordinate) => OpView::CutAxis(id@, axis, coordinate),
            Op::Merge(a, b) => OpView::Merge(a@, b@),
        }
    }
}

/// The instructions of a program as specifications see them.
pub open spec fn program(ops: Seq<Op>) -> Seq<OpView> {
    ops.map_values(|op: Op| op@)
}

impl Clone for Op {
    /// A copy of the instruction.
    fn clone(&self) -> (copy: Op)
        ensures
            copy@ == self@,
    {
        match self {
            Op::CutPoint(id, p) => Op::CutPoint(copy_id(id), *p),
            Op::Color(id, color) => Op::Color(copy_id(id), *color),
            Op::CutAxis(id, axis, coordinate) => Op::CutAxis(copy_id(id), *axis, *coordinate),
            Op::Merge(a, b) => Op::Merge(copy_id(a), copy_id(b)),
        }
    }
}

} // verus!
