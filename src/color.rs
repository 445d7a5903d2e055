//! Palettes: reading them, expanding indexed bitmaps to RGBA, and mapping
//! RGBA bitmaps back to indices.

use vstd::prelude::*;
use crate::common::{CommonHeader, CzError};

verus! {

/// A palette of RGBA colors for indexed bitmaps; an index is a position in it.
#[derive(Debug, Clone)]
pub struct Palette {
    pub colors: Vec<[u8; 4]>,
}

/// The RGBA bytes of the pixels `indices` through palette `pal`.
pub open spec fn expand_spec(indices: Seq<u8>, pal: Seq<[u8; 4]>) -> Seq<u8> {
    Seq::new(4 * indices.len(), |k: int| pal[indices[k / 4] as int][k % 4])
}

/// Whether every index falls inside the palette.
pub open spec fn indices_fit(indices: Seq<u8>, pal: Seq<[u8; 4]>) -> bool {
    forall|i: int| 0 <= i < indices.len() ==> (indices[i] as int) < pal.len()
}

/// Whether palette entry `c` is the pixel at `p` of `rgba`.
pub open spec fn color_is(c: [u8; 4], rgba: Seq<u8>, p: int) -> bool {
    c[0] == rgba[4 * p] && c[1] == rgba[4 * p + 1] && c[2] == rgba[4 * p + 2] && c[3] == rgba[4 * p
        + 3]
}

/// Whether pixel `p` of `rgba` is a color of `pal`.
pub open spec fn color_in(pal: Seq<[u8; 4]>, rgba: Seq<u8>, p: int) -> bool {
    exists|i: int| 0 <= i < pal.len() && color_is(pal[i], rgba, p)
}

/// The index of the first palette entry equal to pixel `p` of `rgba`, or
/// 0 when there is none.
pub open spec fn first_match(pal: Seq<[u8; 4]>, rgba: Seq<u8>, p: int) -> int {
    if exists|i: int| 0 <= i < pal.len() && color_is(pal[i], rgba, p) {
        choose|i: int|
            0 <= i < pal.len() && color_is(pal[i], rgba, p) && forall|j: int|
                0 <= j < i ==> !color_is(pal[j], rgba, p)
    } else {
        0
    }
}

/// The indices that each whole pixel of `rgba` maps to.
pub open spec fn reindex_spec(rgba: Seq<u8>, pal: Seq<[u8; 4]>) -> Seq<u8> {
    Seq::new(rgba.len() / 4, |p: int| first_match(pal, rgba, p) as u8)
}

impl Palette {
    /// The palette's colors.
    pub fn colors(&self) -> (r: &Vec<[u8; 4]>)
        ensures
            r@ == self.colors@,
    {
        &self.colors
    }

    /// Takes the palette apart into its colors.
    pub fn into_colors(self) -> (r: Vec<[u8; 4]>)
        ensures
            r@ == self.colors@,
    {
        self.colors
    }

    pub fn len(&self) -> (r: usize)
        ensures
            r == self.colors@.len(),
    {
        self.colors.len()
    }

    /// The color at `index`, if there is one.
    pub fn get(&self, index: usize) -> (r: Option<&[u8; 4]>)
        ensures
            index < self.colors@.len() ==> r == Some(&self.colors@[index as int]),
            index >= self.colors@.len() ==> r is None,
    {
        if index < self.colors.len() {
            Some(&self.colors[index])
        } else {
            None
        }
    }
}

/// Reads `num_colors` RGBA colors at `pos`.
pub fn get_palette(input: &[u8], pos: usize, num_colors: usize) -> (r: Result<Palette, CzError>)
    ensures
        (pos + 4 * num_colors <= input@.len()) <==> r is Ok,
        r matches Ok(p) ==> p.colors@.len() == num_colors && forall|i: int|
            0 <= i < num_colors ==> #[trigger] p.colors@[i]@ == input@.subrange(
                pos + 4 * i,
                pos + 4 * i + 4,
            ),
        r matches Err(e) ==> e == CzError::IoError,
{
    let n = input.len();
    if pos > n || (n - pos) / 4 < num_colors {
        return Err(CzError::IoError);
    }
    let mut colors: Vec<[u8; 4]> = Vec::with_capacity(num_colors);
    let mut i: usize = 0;
    while i < num_colors
        invariant
            i <= num_colors,
            pos + 4 * num_colors <= n,
            n == input@.len(),
            colors@.len() == i,
            forall|k: int|
                0 <= k < i ==> #[trigger] colors@[k]@ == input@.subrange(pos + 4 * k, pos + 4 * k + 4),
        decreases num_colors - i,
    {
        let p = pos + 4 * i;
        let c = [input[p], input[p + 1], input[p + 2], input[p + 3]];
        assert(c@ =~= input@.subrange(p as int, p + 4));
        colors.push(c);
        i += 1;
    }
    Ok(Palette { colors })
}

/// Maps each index of `input` to its palette color, giving RGBA bytes; an
/// index outside the palette is an error.
pub fn indexed_to_rgba(input: &[u8], palette: &Palette) -> (r: Result<Vec<u8>, CzError>)
    ensures
        r is Ok <==> indices_fit(input@, palette.colors@),
        r matches Ok(v) ==> v@ == expand_spec(input@, palette.colors@),
        r matches Err(e) ==> e == CzError::PaletteError,
{
    let n = input.len();
    let mut out: Vec<u8> = Vec::new();
    let mut i: usize = 0;
    while i < n
        invariant
            i <= n,
            n == input@.len(),
            forall|k: int| 0 <= k < i ==> (input@[k] as int) < palette.colors@.len(),
            out@ == expand_spec(input@.take(i as int), palette.colors@),
        decreases n - i,
    {
        let idx = input[i] as usize;
        if idx >= palette.colors.len() {
            return Err(CzError::PaletteError);
        }
        let c = palette.colors[idx];
        out.push(c[0]);
        out.push(c[1]);
        out.push(c[2]);
        out.push(c[3]);
        i += 1;
        assert(out@ =~= expand_spec(input@.take(i as int), palette.colors@));
    }
    assert(input@.take(n as int) =~= input@);
    Ok(out)
}

/// Maps each whole pixel of `input` to the index of the first equal palette
/// color, or to 0 when no color is equal.
pub fn rgba_to_indexed(input: &[u8], palette: &Palette) -> (r: Result<Vec<u8>, CzError>)
    ensures
        r matches Ok(v) && v@ == reindex_spec(input@, palette.colors@),
{
    let n = input.len();
    let pixels = n / 4;
    let pal = &palette.colors;
    let mut out: Vec<u8> = Vec::with_capacity(pixels);
    let mut p: usize = 0;
    while p < pixels
        invariant
            p <= pixels,
            pixels == n / 4,
            n == input@.len(),
            out@ == reindex_spec(input@, pal@).take(p as int),
        decreases pixels - p,
    {
        let q = 4 * p;
        let mut j: usize = 0;
        let mut found = false;
        assert(q + 4 <= n) by (nonlinear_arith)
            requires
                q == 4 * p,
                p < pixels,
                pixels == n / 4,
        ;
        while j < pal.len()
            invariant_except_break
                !found,
            invariant
                j <= pal@.len(),
                q == 4 * p,
                q + 4 <= n,
                n == input@.len(),
                forall|m: int| 0 <= m < j ==> !color_is(pal@[m], input@, p as int),
            ensures
                found ==> j < pal@.len() && color_is(pal@[j as int], input@, p as int),
                !found ==> j == pal@.len(),
                forall|m: int| 0 <= m < j ==> !color_is(pal@[m], input@, p as int),
            decreases pal@.len() - j,
        {
            let c = pal[j];
            if c[0] == input[q] && c[1] == input[q + 1] && c[2] == input[q + 2] && c[3] == input[q
                + 3] {
                found = true;
                break;
            }
            j += 1;
        }
        let idx: usize = if found {
            j
        } else {
            0
        };
        proof {
            if found {
                assert(color_is(pal@[j as int], input@, p as int));
                assert(first_match(pal@, input@, p as int) == j) by {
                    let w = choose|i: int|
                        0 <= i < pal@.len() && color_is(pal@[i], input@, p as int) && forall|m: int|
                            0 <= m < i ==> !color_is(pal@[m], input@, p as int);
                    assert(0 <= j < pal@.len() && color_is(pal@[j as int], input@, p as int)
                        && forall|m: int| 0 <= m < j ==> !color_is(pal@[m], input@, p as int));
                    if w < j {
                    } else if w > j {
                    }
                }
            } else {
                assert(first_match(pal@, input@, p as int) == 0);
            }
        }
        out.push(#[verifier::truncate] (idx as u8));
        p += 1;
        assert(out@ =~= reindex_spec(input@, pal@).take(p as int));
    }
    assert(reindex_spec(input@, pal@).take(pixels as int) =~= reindex_spec(input@, pal@));
    Ok(out)
}

/// Finishes a palette from a quantizer: `quantized` holds its colors and
/// `indices` one index per pixel. The palette is padded to 256 entries with
/// transparent black.
pub fn indexed_gen_palette(
    indices: Vec<u8>,
    quantized: &[[u8; 4]],
    header: &CommonHeader,
) -> (r: Result<(Vec<u8>, Vec<[u8; 4]>), CzError>)
    ensures
        (indices@.len() == header.width * header.height && quantized@.len() <= 256) <==> r is Ok,
        r matches Ok((idx, pal)) ==> {
            &&& idx@ == indices@
            &&& pal@.len() == 256
            &&& forall|k: int| 0 <= k < quantized@.len() ==> pal@[k] == quantized@[k]
            &&& forall|k: int| quantized@.len() <= k < 256 ==> pal@[k] == [0u8, 0u8, 0u8, 0u8]
        },
        indices@.len() != header.width * header.height ==> r == Err::<
            (Vec<u8>, Vec<[u8; 4]>),
            CzError,
        >(CzError::BitmapFormat),
        indices@.len() == header.width * header.height && quantized@.len() > 256 ==> r == Err::<
            (Vec<u8>, Vec<[u8; 4]>),
            CzError,
        >(CzError::PaletteError),
{
    let w = header.width as usize;
    let h = header.height as usize;
    assert(w * h <= 0xFFFF_FFFF) by (nonlinear_arith)
        requires
            w <= 0xFFFF,
            h <= 0xFFFF,
    ;
    let pixels = w * h;
    if indices.len() != pixels {
        return Err(CzError::BitmapFormat);
    }
    if quantized.len() > 256 {
        return Err(CzError::PaletteError);
    }
    let mut pal: Vec<[u8; 4]> = Vec::with_capacity(256);
    let mut k: usize = 0;
    while k < 256
        invariant
            k <= 256,
            quantized@.len() <= 256,
            pal@.len() == k,
            forall|m: int| 0 <= m < k && m < quantized@.len() ==> pal@[m] == quantized@[m],
            forall|m: int| quantized@.len() <= m < k ==> pal@[m] == [0u8, 0u8, 0u8, 0u8],
        decreases 256 - k,
    {
        if k < quantized.len() {
            pal.push(quantized[k]);
        } else {
            pal.push([0u8, 0u8, 0u8, 0u8]);
        }
        k += 1;
    }
    Ok((indices, pal))
}

proof fn lemma_first_match_props(pal: Seq<[u8; 4]>, rgba: Seq<u8>, p: int)
    requires
        color_in(pal, rgba, p),
    ensures
        0 <= first_match(pal, rgba, p) < pal.len(),
        color_is(pal[first_match(pal, rgba, p)], rgba, p),
{
    let i0 = choose|i: int| 0 <= i < pal.len() && color_is(pal[i], rgba, p);
    lemma_first_exists(pal, rgba, p, i0);
}

/// Mapping a bitmap to indices and back through the same palette gives the
/// bitmap again, when every pixel's color is in the palette and the palette
/// has at most 256 colors.
pub proof fn lemma_palette_round_trip(rgba: Seq<u8>, pal: Seq<[u8; 4]>)
    requires
        rgba.len() % 4 == 0,
        pal.len() <= 256,
        forall|p: int| 0 <= p < rgba.len() / 4 ==> #[trigger] color_in(pal, rgba, p),
    ensures
        indices_fit(reindex_spec(rgba, pal), pal),
        expand_spec(reindex_spec(rgba, pal), pal) == rgba,
{
    let idx = reindex_spec(rgba, pal);
    assert forall|p: int| 0 <= p < idx.len() implies (idx[p] as int) < pal.len() && color_is(
        pal[idx[p] as int],
        rgba,
        p,
    ) by {
        assert(color_in(pal, rgba, p));
        lemma_first_match_props(pal, rgba, p);
    }
    let e = expand_spec(idx, pal);
    assert forall|k: int| 0 <= k < rgba.len() implies e[k] == rgba[k] by {
        lemma_expand_byte(rgba, pal, idx, k);
    }
    assert(e =~= rgba);
}

proof fn lemma_expand_byte(rgba: Seq<u8>, pal: Seq<[u8; 4]>, idx: Seq<u8>, k: int)
    requires
        0 <= k < rgba.len(),
        rgba.len() % 4 == 0,
        idx.len() == rgba.len() / 4,
        color_is(pal[idx[k / 4] as int], rgba, k / 4),
    ensures
        expand_spec(idx, pal)[k] == rgba[k],
{
    let p = k / 4;
    let r = k % 4;
    assert(k == 4 * p + r && 0 <= r < 4 && 0 <= p < idx.len());
    let c = pal[idx[p] as int];
    assert(expand_spec(idx, pal)[k] == c[r]);
    if r == 0 {
        assert(c[0] == rgba[4 * p]);
    } else if r == 1 {
        assert(c[1] == rgba[4 * p + 1]);
    } else if r == 2 {
        assert(c[2] == rgba[4 * p + 2]);
    } else {
        assert(c[3] == rgba[4 * p + 3]);
    }
}

proof fn lemma_first_exists(pal: Seq<[u8; 4]>, rgba: Seq<u8>, p: int, i0: int)
    requires
        0 <= i0 < pal.len(),
        color_is(pal[i0], rgba, p),
    ensures
        exists|i: int|
            0 <= i < pal.len() && color_is(pal[i], rgba, p) && forall|j: int|
                0 <= j < i ==> !color_is(pal[j], rgba, p),
    decreases i0,
{
    if exists|j: int| 0 <= j < i0 && color_is(pal[j], rgba, p) {
        let j = choose|j: int| 0 <= j < i0 && color_is(pal[j], rgba, p);
        lemma_first_exists(pal, rgba, p, j);
    } else {
        assert(forall|j: int| 0 <= j < i0 ==> !color_is(pal[j], rgba, p));
    }
}

} // verus!
