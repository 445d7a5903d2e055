//! CZ3: the bitmap is line-diffed as one plane, then compressed with LZW-A.

use vstd::prelude::*;
use crate::common::{CommonHeader, CzError};
use crate::compression::{ChunkInfo, sum_compressed, sum_raw};
use crate::cz1::{chunked, payload_a};
use crate::formats::{block_height, block_height_of, corrupt, stride, stride_of};
use crate::linediff::{diff_rows, diff_seq, undiff_rows, undiff_seq};

verus! {

/// Decodes the payload at `pos` and undoes the line diff.
pub fn decode(input: &[u8], pos: usize, header: &CommonHeader) -> (r: Result<Vec<u8>, CzError>)
    ensures
        r is Ok <==> payload_a(input@, pos as int) is Ok && payload_a(
            input@,
            pos as int,
        )->Ok_0.len() >= header.height * stride_of(*header),
        r matches Ok(v) ==> v@ == undiff_seq(
            payload_a(input@, pos as int)->Ok_0,
            stride_of(*header),
            block_height_of(*header),
            header.height * stride_of(*header),
        ),
        payload_a(input@, pos as int) matches Err(de) ==> (r matches Err(e) && crate::compression::reports(de, e)),
{
    let data = crate::cz1::decode(input, pos)?;
    let s = stride(header) as u64;
    let h = header.height as u64;
    assert(h * s <= 0xFFFF * 0xFFFF * 0x2000) by (nonlinear_arith)
        requires
            h <= 0xFFFF,
            s <= 0xFFFF * 0x2000,
    ;
    if (data.len() as u64) < h * s {
        return Err(corrupt("Bitmap size incorrect"));
    }
    Ok(line_diff(header, data.as_slice()))
}

/// Line-diffs `bitmap` and appends its LZW-A payload.
pub fn encode(output: &mut Vec<u8>, bitmap: &[u8], header: &CommonHeader) -> (r: Result<(), CzError>)
    requires
        header.height * stride_of(*header) <= bitmap@.len(),
        header.height * stride_of(*header) < u32::MAX,
    ensures
        r is Ok,
        final(output)@.len() >= old(output)@.len(),
        exists|table: Seq<ChunkInfo>, codes: Seq<u8>|
            #[trigger] chunked(table, codes) == final(output)@.subrange(
                old(output)@.len() as int,
                final(output)@.len() as int,
            ) && final(output)@.subrange(0, old(output)@.len() as int) == old(output)@ && sum_raw(
                table,
            ) == header.height * stride_of(*header) && codes.len() == 2 * sum_compressed(table),
        payload_a(final(output)@, old(output)@.len() as int) == Ok::<Seq<u8>, CzError>(
            diff_seq(
                bitmap@,
                stride_of(*header),
                block_height_of(*header),
                header.height * stride_of(*header),
            ),
        ),
{
    let filtered = diff_line(header, bitmap);
    crate::cz1::encode(output, filtered.as_slice())
}

/// Undoes the line diff on the rows of `data`.
pub fn line_diff(header: &CommonHeader, data: &[u8]) -> (r: Vec<u8>)
    requires
        header.height * stride_of(*header) <= data@.len(),
    ensures
        r@ == undiff_seq(
            data@,
            stride_of(*header),
            block_height_of(*header),
            header.height * stride_of(*header),
        ),
{
    let s = stride(header);
    let h = header.height as usize;
    assert(s * h == h * s) by (nonlinear_arith);
    undiff_rows(data, s, h, block_height(header))
}

/// Applies the line diff to the rows of `input`.
pub fn diff_line(header: &CommonHeader, input: &[u8]) -> (r: Vec<u8>)
    requires
        header.height * stride_of(*header) <= input@.len(),
    ensures
        r@ == diff_seq(
            input@,
            stride_of(*header),
            block_height_of(*header),
            header.height * stride_of(*header),
        ),
{
    let s = stride(header);
    let h = header.height as usize;
    assert(s * h == h * s) by (nonlinear_arith);
    diff_rows(input, s, h, block_height(header))
}

} // verus!
