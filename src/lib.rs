//! Tables out of HTML documents: a tree of the document's nodes goes in,
//! and each table comes out as a rectangular grid of cells with rich text,
//! with the headings and content around it.

use vstd::prelude::*;

pub mod attr;
pub mod context;
pub mod dom;
pub mod extract;
pub mod error;
pub mod normalize;
pub mod number;
pub mod render;
pub mod richtext;
pub mod span;
pub mod table;
pub mod tagset;
pub mod text;
pub mod traversal;
pub mod tree;
pub mod urls;

verus! {

/// The square of `x`.
pub fn rs_square(x: i32) -> (r: i32)
    requires
        x * x <= i32::MAX,
    ensures
        r == x * x,
{
    proof {
        assert(0 <= x * x) by (nonlinear_arith);
    }
    x * x
}

} // verus!
