//! Texel lookup of the image texture: which entry of a row-major pixel buffer
//! a pair of texel coordinates selects.
use vstd::prelude::*;

verus! {

/// `x`, or `top` where `x` lies past it.
pub open spec fn clamp_to(x: int, top: int) -> int {
    if x <= top {
        x
    } else {
        top
    }
}

/// The buffer index of the texel at column `i`, row `j` (row 0 first) of an
/// image `width` by `height`; coordinates past the last column or row select
/// that column or row.
pub fn texel_index(width: usize, height: usize, i: usize, j: usize) -> (r: usize)
    requires
        width > 0,
        height > 0,
        width * height <= usize::MAX,
    ensures
        r == clamp_to(j as int, height - 1) * width + clamp_to(i as int, width - 1),
        r < width * height,
{
    let col = if i >= width {
        width - 1
    } else {
        i
    };
    let row = if j >= height {
        height - 1
    } else {
        j
    };
    proof {
        assert(row * width + col < width * height) by (nonlinear_arith)
            requires
                row < height,
                col < width,
        ;
    }
    row * width + col
}

} // verus!
