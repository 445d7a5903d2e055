//! The reversible row predictor of CZ3 and CZ4 payloads.
//!
//! A byte matrix of `height` rows of `stride` bytes is cut into blocks of
//! `block_height` rows. The first row of each block is stored as it is;
//! every other row is stored as its byte-wise difference, modulo 256, from
//! the row above.

use vstd::prelude::*;

verus! {

/// Whether byte `i` lies in the first row of a block.
pub open spec fn block_start(i: int, stride: int, block_height: int) -> bool {
    (i / stride) % block_height == 0
}

/// Byte `i` of the forward-filtered matrix `m`.
pub open spec fn diff_at(m: Seq<u8>, stride: int, block_height: int, i: int) -> u8 {
    if block_start(i, stride, block_height) {
        m[i]
    } else {
        ((m[i] - m[i - stride]) % 256) as u8
    }
}

/// Byte `i` of the matrix rebuilt from filtered bytes `d`: the sum, modulo
/// 256, of the bytes above it back to the first row of its block.
pub open spec fn undiff_at(d: Seq<u8>, stride: int, block_height: int, i: int) -> u8
    decreases i,
{
    if stride <= 0 || i < stride || block_start(i, stride, block_height) {
        d[i]
    } else {
        ((d[i] + undiff_at(d, stride, block_height, i - stride)) % 256) as u8
    }
}

/// The forward filter of the first `len` bytes of `m`.
pub open spec fn diff_seq(m: Seq<u8>, stride: int, block_height: int, len: int) -> Seq<u8> {
    Seq::new(len as nat, |i: int| diff_at(m, stride, block_height, i))
}

/// The inverse filter of the first `len` bytes of `d`; later bytes stay.
pub open spec fn undiff_seq(d: Seq<u8>, stride: int, block_height: int, len: int) -> Seq<u8> {
    Seq::new(
        d.len(),
        |i: int|
            if i < len {
                undiff_at(d, stride, block_height, i)
            } else {
                d[i]
            },
    )
}

proof fn lemma_row_above(i: int, stride: int, block_height: int)
    requires
        0 <= i,
        stride > 0,
        block_height > 0,
        !block_start(i, stride, block_height),
    ensures
        i >= stride,
        (i - stride) / stride == i / stride - 1,
{
    assert(i / stride != 0) by {
        if i / stride == 0 {
            assert(0int % block_height == 0);
        }
    }
    assert(i / stride >= 1) by (nonlinear_arith)
        requires
            i >= 0,
            stride > 0,
            i / stride != 0,
    ;
    assert(i >= stride) by (nonlinear_arith)
        requires
            i / stride >= 1,
            stride > 0,
            i >= 0,
    ;
    assert((i - stride) / stride == i / stride - 1) by (nonlinear_arith)
        requires
            stride > 0,
            i >= stride,
    ;
}

/// Undoing the filter gives back the matrix: for every byte matrix and every
/// block height of at least one row, `undiff(diff(m)) == m`.
pub proof fn lemma_line_diff_inverts(m: Seq<u8>, stride: int, block_height: int, len: int)
    requires
        stride > 0,
        block_height > 0,
        0 <= len <= m.len(),
    ensures
        undiff_seq(diff_seq(m, stride, block_height, len), stride, block_height, len) == m.take(
            len,
        ),
{
    let d = diff_seq(m, stride, block_height, len);
    assert forall|i: int| 0 <= i < len implies undiff_at(d, stride, block_height, i) == m[i] by {
        lemma_undiff_of_diff(m, stride, block_height, len, i);
    }
    assert(undiff_seq(d, stride, block_height, len) =~= m.take(len));
}

proof fn lemma_undiff_of_diff(m: Seq<u8>, stride: int, block_height: int, len: int, i: int)
    requires
        stride > 0,
        block_height > 0,
        0 <= i < len <= m.len(),
    ensures
        undiff_at(diff_seq(m, stride, block_height, len), stride, block_height, i) == m[i],
    decreases i,
{
    let d = diff_seq(m, stride, block_height, len);
    if i < stride || block_start(i, stride, block_height) {
        if !block_start(i, stride, block_height) {
            lemma_row_above(i, stride, block_height);
        }
    } else {
        lemma_undiff_of_diff(m, stride, block_height, len, i - stride);
        let a = m[i];
        let b = m[i - stride];
        assert((((a - b) % 256) as u8 + b) % 256 == a as int) by (nonlinear_arith)
            requires
                0 <= a < 256,
                0 <= b < 256,
        ;
    }
}

/// Applies the forward filter to the first `height` rows of `input`.
pub fn diff_rows(input: &[u8], stride: usize, height: usize, block_height: usize) -> (r: Vec<u8>)
    requires
        block_height > 0,
        stride * height <= input@.len(),
    ensures
        r@ == diff_seq(input@, stride as int, block_height as int, stride * height),
{
    let n = input.len();
    assert(stride * height <= n);
    let len = stride * height;
    let mut out: Vec<u8> = Vec::with_capacity(len);
    let mut i: usize = 0;
    while i < len
        invariant
            len == stride * height,
            len <= input@.len(),
            block_height > 0,
            i <= len,
            out@ == diff_seq(input@, stride as int, block_height as int, i as int),
        decreases len - i,
    {
        if stride == 0 {
            assert(stride * height == 0);
        }
        if (i / stride) % block_height == 0 {
            out.push(input[i]);
        } else {
            proof {
                lemma_row_above(i as int, stride as int, block_height as int);
            }
            out.push(input[i].wrapping_sub(input[i - stride]));
        }
        i += 1;
        assert(out@ =~= diff_seq(input@, stride as int, block_height as int, i as int));
    }
    out
}

/// Undoes the forward filter on the first `height` rows of `data`; any
/// bytes after them are copied unchanged.
pub fn undiff_rows(data: &[u8], stride: usize, height: usize, block_height: usize) -> (r: Vec<u8>)
    requires
        block_height > 0,
        stride * height <= data@.len(),
    ensures
        r@ == undiff_seq(data@, stride as int, block_height as int, stride * height),
{
    let n = data.len();
    assert(stride * height <= n);
    let len = stride * height;
    let mut out: Vec<u8> = crate::bytes::copy_range(data, 0, data.len());
    assert(out@ =~= data@);
    let mut i: usize = 0;
    while i < len
        invariant
            len == stride * height,
            len <= data@.len(),
            out@.len() == data@.len(),
            block_height > 0,
            i <= len,
            forall|k: int|
                0 <= k < i ==> out@[k] == undiff_at(data@, stride as int, block_height as int, k),
            forall|k: int| i <= k < data@.len() ==> out@[k] == data@[k],
        decreases len - i,
    {
        if stride == 0 {
            assert(stride * height == 0);
        }
        if (i / stride) % block_height != 0 {
            proof {
                lemma_row_above(i as int, stride as int, block_height as int);
            }
            let v = out[i].wrapping_add(out[i - stride]);
            out.set(i, v);
        }
        i += 1;
    }
    assert(out@ =~= undiff_seq(data@, stride as int, block_height as int, len as int));
    out
}

} // verus!
