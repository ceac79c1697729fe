//! A small reverse-mode automatic-differentiation engine over 64-bit integer scalars.
//!
//! Nodes live in an arena (`Graph`) and are referred to by `Value` handles. Every
//! operation appends a node whose operands are earlier nodes, so the arena's index
//! order is a topological order of the computation graph. Arithmetic is
//! two's-complement and wraps around on overflow. The operations are addition,
//! multiplication, negation, sums and integer powers; the hyperbolic tangent is left
//! out, since its value is not an integer.
use vstd::prelude::*;

pub mod graph;
pub mod ops;
pub mod backward;
pub mod laws;
