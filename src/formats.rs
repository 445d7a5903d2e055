//! Geometry shared by the CZ# payload formats.

use vstd::prelude::*;
use crate::common::{CommonHeader, CzError};

verus! {

/// Bytes per row of the on-disk bitmap.
pub open spec fn stride_of(h: CommonHeader) -> int {
    h.width * (h.depth / 8)
}

/// Rows per line-diff block: a third of the height, rounded up.
pub open spec fn block_height_of(h: CommonHeader) -> int {
    if h.height == 0 {
        1
    } else {
        (h.height + 2) / 3
    }
}

/// Bytes per row of the on-disk bitmap.
pub fn stride(h: &CommonHeader) -> (r: usize)
    ensures
        r == stride_of(*h),
        r <= 0xFFFF * 0x2000,
{
    let w = h.width as usize;
    let b = (h.depth / 8) as usize;
    assert(w * b <= 0xFFFF * 0x2000) by (nonlinear_arith)
        requires
            w <= 0xFFFF,
            b <= 0x2000,
    ;
    w * b
}

/// Rows per line-diff block.
pub fn block_height(h: &CommonHeader) -> (r: usize)
    ensures
        r == block_height_of(*h),
        r >= 1,
{
    if h.height == 0 {
        1
    } else {
        (h.height as usize + 2) / 3
    }
}

/// The number of pixels of the image.
pub fn pixel_count(h: &CommonHeader) -> (r: usize)
    ensures
        r == h.width * h.height,
        r <= 0xFFFF_FFFF,
{
    let w = h.width as usize;
    let hh = h.height as usize;
    assert(w * hh <= 0xFFFF_FFFF) by (nonlinear_arith)
        requires
            w <= 0xFFFF,
            hh <= 0xFFFF,
    ;
    w * hh
}

/// An error for inconsistent data, with its reason.
pub fn corrupt(reason: &str) -> (r: CzError)
    ensures
        r is Corrupt,
{
    CzError::Corrupt(reason.to_string())
}

} // verus!
