//! CZ4: the bitmap is split into an RGB plane and an alpha plane, each
//! line-diffed, then compressed together with LZW-A.

use vstd::prelude::*;
use crate::bytes::{copy_range, push_all};
use crate::common::{CommonHeader, CzError};
use crate::compression::{ChunkInfo, sum_compressed, sum_raw};
use crate::cz1::{chunked, payload_a};
use crate::formats::{block_height, block_height_of, corrupt, pixel_count};
use crate::linediff::{
    diff_rows, diff_seq, lemma_line_diff_inverts, undiff_rows, undiff_seq,
};

verus! {

/// The RGB bytes of the first `n` pixels of RGBA bytes `x`.
pub open spec fn rgb_plane(x: Seq<u8>, n: int) -> Seq<u8> {
    Seq::new((3 * n) as nat, |k: int| x[4 * (k / 3) + k % 3])
}

/// The alpha bytes of the first `n` pixels of RGBA bytes `x`.
pub open spec fn alpha_plane(x: Seq<u8>, n: int) -> Seq<u8> {
    Seq::new(n as nat, |k: int| x[4 * k + 3])
}

/// `n` RGBA pixels joined from an RGB plane and an alpha plane.
pub open spec fn merge_spec(rgb: Seq<u8>, alpha: Seq<u8>, n: int) -> Seq<u8> {
    Seq::new(
        (4 * n) as nat,
        |k: int|
            if k % 4 < 3 {
                rgb[3 * (k / 4) + k % 4]
            } else {
                alpha[k / 4]
            },
    )
}

/// The filtered payload of RGBA bytes `x` for an image of `w` by `h` pixels.
pub open spec fn planes_diff(x: Seq<u8>, w: int, h: int, bh: int) -> Seq<u8> {
    diff_seq(rgb_plane(x, w * h), 3 * w, bh, 3 * (w * h)) + diff_seq(
        alpha_plane(x, w * h),
        w,
        bh,
        w * h,
    )
}

/// The RGBA bytes rebuilt from a filtered payload `d`.
pub open spec fn planes_undiff(d: Seq<u8>, w: int, h: int, bh: int) -> Seq<u8> {
    let n = w * h;
    merge_spec(
        undiff_seq(d.subrange(0, 3 * n), 3 * w, bh, 3 * n),
        undiff_seq(d.subrange(3 * n, 4 * n), w, bh, n),
        n,
    )
}

fn split_planes(input: &[u8], n: usize) -> (r: (Vec<u8>, Vec<u8>))
    requires
        4 * n <= input@.len(),
    ensures
        r.0@ == rgb_plane(input@, n as int),
        r.1@ == alpha_plane(input@, n as int),
{
    let len = input.len();
    let mut rgb: Vec<u8> = Vec::new();
    let mut alpha: Vec<u8> = Vec::new();
    let mut p: usize = 0;
    while p < n
        invariant
            len == input@.len(),
            p <= n,
            4 * n <= input@.len(),
            rgb@ == rgb_plane(input@, p as int),
            alpha@ == alpha_plane(input@, p as int),
        decreases n - p,
    {
        rgb.push(input[4 * p]);
        rgb.push(input[4 * p + 1]);
        rgb.push(input[4 * p + 2]);
        alpha.push(input[4 * p + 3]);
        p += 1;
        assert(rgb@ =~= rgb_plane(input@, p as int));
        assert(alpha@ =~= alpha_plane(input@, p as int));
    }
    (rgb, alpha)
}

fn merge_planes(rgb: &[u8], alpha: &[u8], n: usize) -> (r: Vec<u8>)
    requires
        3 * n <= rgb@.len(),
        n <= alpha@.len(),
    ensures
        r@ == merge_spec(rgb@, alpha@, n as int),
{
    let len = rgb.len();
    let mut out: Vec<u8> = Vec::new();
    let mut p: usize = 0;
    while p < n
        invariant
            len == rgb@.len(),
            p <= n,
            3 * n <= rgb@.len(),
            n <= alpha@.len(),
            out@ == merge_spec(rgb@, alpha@, p as int),
        decreases n - p,
    {
        out.push(rgb[3 * p]);
        out.push(rgb[3 * p + 1]);
        out.push(rgb[3 * p + 2]);
        out.push(alpha[p]);
        p += 1;
        assert(out@ =~= merge_spec(rgb@, alpha@, p as int));
    }
    out
}

/// Decodes the payload at `pos` and rebuilds RGBA pixels from its planes.
pub fn decode(input: &[u8], pos: usize, header: &CommonHeader) -> (r: Result<Vec<u8>, CzError>)
    ensures
        r is Ok <==> payload_a(input@, pos as int) is Ok && payload_a(
            input@,
            pos as int,
        )->Ok_0.len() >= 4 * (header.width * header.height),
        r matches Ok(v) ==> v@ == planes_undiff(
            payload_a(input@, pos as int)->Ok_0,
            header.width as int,
            header.height as int,
            block_height_of(*header),
        ),
        payload_a(input@, pos as int) matches Err(de) ==> (r matches Err(e) && crate::compression::reports(de, e)),
{
    let data = crate::cz1::decode(input, pos)?;
    let n = pixel_count(header);
    if data.len() / 4 < n {
        return Err(corrupt("Bitmap size incorrect"));
    }
    Ok(line_diff(header, data.as_slice()))
}

/// Splits `bitmap` into planes, line-diffs them and appends the LZW-A payload.
pub fn encode(output: &mut Vec<u8>, bitmap: &[u8], header: &CommonHeader) -> (r: Result<(), CzError>)
    requires
        4 * (header.width * header.height) <= bitmap@.len(),
        4 * (header.width * header.height) < u32::MAX,
    ensures
        r is Ok,
        final(output)@.len() >= old(output)@.len(),
        exists|table: Seq<ChunkInfo>, codes: Seq<u8>|
            #[trigger] chunked(table, codes) == final(output)@.subrange(
                old(output)@.len() as int,
                final(output)@.len() as int,
            ) && final(output)@.subrange(0, old(output)@.len() as int) == old(output)@ && sum_raw(
                table,
            ) == 4 * (header.width * header.height) && codes.len() == 2 * sum_compressed(table),
        payload_a(final(output)@, old(output)@.len() as int) == Ok::<Seq<u8>, CzError>(
            planes_diff(
                bitmap@,
                header.width as int,
                header.height as int,
                block_height_of(*header),
            ),
        ),
{
    let filtered = diff_line(header, bitmap);
    crate::cz1::encode(output, filtered.as_slice())
}

/// Undoes the line diff of both planes and joins them into RGBA pixels.
pub fn line_diff(header: &CommonHeader, data: &[u8]) -> (r: Vec<u8>)
    requires
        4 * (header.width * header.height) <= data@.len(),
    ensures
        r@ == planes_undiff(data@, header.width as int, header.height as int, block_height_of(*header)),
{
    let n = pixel_count(header);
    let w = header.width as usize;
    let h = header.height as usize;
    let bh = block_height(header);
    let _len = data.len();
    let rgb_part = copy_range(data, 0, 3 * n);
    let alpha_part = copy_range(data, 3 * n, n);
    assert((3 * w) * h == 3 * n && w * h == n) by (nonlinear_arith)
        requires
            n == w * h,
    ;
    let rgb = undiff_rows(rgb_part.as_slice(), 3 * w, h, bh);
    let alpha = undiff_rows(alpha_part.as_slice(), w, h, bh);
    merge_planes(rgb.as_slice(), alpha.as_slice(), n)
}

/// Splits RGBA pixels into planes and applies the line diff to each.
pub fn diff_line(header: &CommonHeader, input: &[u8]) -> (r: Vec<u8>)
    requires
        4 * (header.width * header.height) <= input@.len(),
    ensures
        r@ == planes_diff(input@, header.width as int, header.height as int, block_height_of(*header)),
        r@.len() == 4 * (header.width * header.height),
{
    let n = pixel_count(header);
    let w = header.width as usize;
    let h = header.height as usize;
    let bh = block_height(header);
    let (rgb, alpha) = split_planes(input, n);
    assert((3 * w) * h == 3 * n && w * h == n) by (nonlinear_arith)
        requires
            n == w * h,
    ;
    let mut out = diff_rows(rgb.as_slice(), 3 * w, h, bh);
    let a = diff_rows(alpha.as_slice(), w, h, bh);
    push_all(&mut out, a.as_slice());
    out
}

/// Undoing the two-plane filter gives back the RGBA pixels.
pub proof fn lemma_planes_invert(x: Seq<u8>, w: int, h: int, bh: int)
    requires
        w >= 0,
        h >= 0,
        bh >= 1,
        4 * (w * h) <= x.len(),
    ensures
        planes_undiff(planes_diff(x, w, h, bh), w, h, bh) == x.take(4 * (w * h)),
{
    let n = w * h;
    assert(n >= 0) by (nonlinear_arith)
        requires
            w >= 0,
            h >= 0,
            n == w * h,
    ;
    let rp = rgb_plane(x, n);
    let ap = alpha_plane(x, n);
    let d = planes_diff(x, w, h, bh);
    let dr = diff_seq(rp, 3 * w, bh, 3 * n);
    let da = diff_seq(ap, w, bh, n);
    assert(d.subrange(0, 3 * n) =~= dr);
    assert(d.subrange(3 * n, 4 * n) =~= da);
    if w == 0 {
        assert(n == 0);
        assert(planes_undiff(d, w, h, bh) =~= x.take(4 * n));
        return;
    }
    lemma_line_diff_inverts(rp, 3 * w, bh, 3 * n);
    lemma_line_diff_inverts(ap, w, bh, n);
    assert(rp.take(3 * n) =~= rp);
    assert(ap.take(n) =~= ap);
    let m = merge_spec(rp, ap, n);
    assert forall|k: int| 0 <= k < 4 * n implies m[k] == x[k] by {
        let p = k / 4;
        let c = k % 4;
        assert(k == 4 * p + c);
        if c < 3 {
            assert(rp[3 * p + c] == x[4 * ((3 * p + c) / 3) + (3 * p + c) % 3]);
            assert((3 * p + c) / 3 == p && (3 * p + c) % 3 == c);
        }
    }
    assert(m =~= x.take(4 * n));
}

} // verus!
