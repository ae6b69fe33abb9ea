//! A simulator for a small instruction set that paints a rectangular canvas
//! by cutting it into blocks, colouring blocks and merging them again, and a
//! scheduler that turns a set of target rectangles into such a program.
//!
//! * [`geometry`], [`color`] and [`block_id`] hold the values that the rest
//!   works on: points and rectangles, colours, and the names of blocks.
//! * [`partition`] keeps the live blocks of a canvas. They never overlap and
//!   always fill the canvas.
//! * [`raster`] is the grid of pixels, and its flattening into image bytes.
//! * [`interpreter`] runs instructions on a partition and a raster and adds
//!   up what they cost.
//! * [`scorer`] compares two rasters pixel by pixel.
//! * [`scheduler`] orders the rectangles of a target picture and writes the
//!   program that paints them; [`painting`] shows that the interpreter
//!   accepts that program and that it paints the picture.
//! * [`parser`] reads a program from its text form.

pub mod block_id;
pub mod color;
pub mod error;
pub mod geometry;
pub mod interpreter;
pub mod op;
pub mod painting;
pub mod parser;
pub mod partition;
pub mod raster;
pub mod scheduler;
pub mod scorer;
