//! A CZ# image of any version: decoding, encoding and editing.

use vstd::prelude::*;
use crate::bytes::copy_range;
use crate::color::{expand_spec, get_palette, indexed_to_rgba, indices_fit, rgba_to_indexed, Palette};
use crate::common::{
    common_header_bytes, extended_header_bytes, parse_common, parse_extended, CommonHeader,
    CzError, CzVersion, ExtendedHeader,
};
use crate::cz1::payload_a;
use crate::cz2::payload_b;
use crate::cz4::planes_undiff;
use crate::formats::{block_height_of, corrupt, pixel_count, stride_of};
use crate::linediff::undiff_seq;

verus! {

/// A CZ# image: its headers, its palette when it has one, and its pixels as
/// 32-bit RGBA.
#[derive(Debug, Clone)]
pub struct CzFile {
    pub header_common: CommonHeader,
    pub header_extended: Option<ExtendedHeader>,
    /// A palette of RGBA values for indexed color.
    pub palette: Option<Palette>,
    /// The pixels, four bytes each.
    pub bitmap: Vec<u8>,
}

/// Whether the file has an extended header to read.
pub open spec fn has_extended(h: CommonHeader) -> bool {
    h.length > 15 && h.version != CzVersion::CZ2
}

/// The number of palette colors stored for a depth of at most 8: two to
/// the power of the depth.
pub open spec fn palette_count(h: CommonHeader) -> int {
    let d = h.depth;
    if d == 0 {
        1
    } else if d == 1 {
        2
    } else if d == 2 {
        4
    } else if d == 3 {
        8
    } else if d == 4 {
        16
    } else if d == 5 {
        32
    } else if d == 6 {
        64
    } else if d == 7 {
        128
    } else if d == 8 {
        256
    } else {
        0
    }
}

fn palette_size(h: &CommonHeader) -> (r: usize)
    ensures
        r == palette_count(*h),
{
    let d = h.depth;
    if d == 0 {
        1
    } else if d == 1 {
        2
    } else if d == 2 {
        4
    } else if d == 3 {
        8
    } else if d == 4 {
        16
    } else if d == 5 {
        32
    } else if d == 6 {
        64
    } else if d == 7 {
        128
    } else if d == 8 {
        256
    } else {
        0
    }
}

/// Where the payload starts.
pub open spec fn payload_start(h: CommonHeader) -> int {
    h.length + 4 * palette_count(h)
}

/// The on-disk bitmap that the payload of `s` holds, if it can be decoded.
pub open spec fn disk_bitmap(s: Seq<u8>, h: CommonHeader) -> Option<Seq<u8>> {
    let pos = payload_start(h);
    match h.version {
        CzVersion::CZ0 => Some(s.subrange(pos, s.len() as int)),
        CzVersion::CZ1 => match payload_a(s, pos) {
            Ok(d) => Some(d),
            Err(_) => None,
        },
        CzVersion::CZ2 => match payload_b(s, pos) {
            Ok(d) => Some(d),
            Err(_) => None,
        },
        CzVersion::CZ3 => match payload_a(s, pos) {
            Ok(d) => if d.len() >= h.height * stride_of(h) {
                Some(undiff_seq(d, stride_of(h), block_height_of(h), h.height * stride_of(h)))
            } else {
                None
            },
            Err(_) => None,
        },
        CzVersion::CZ4 => match payload_a(s, pos) {
            Ok(d) => if d.len() >= 4 * (h.width * h.height) {
                Some(planes_undiff(d, h.width as int, h.height as int, block_height_of(h)))
            } else {
                None
            },
            Err(_) => None,
        },
        CzVersion::CZ5 => None,
    }
}

/// RGB bytes widened to RGBA with opaque alpha.
pub open spec fn rgb_to_rgba(d: Seq<u8>) -> Seq<u8> {
    Seq::new(
        (4 * (d.len() / 3)) as nat,
        |k: int|
            if k % 4 < 3 {
                d[3 * (k / 4) + k % 4]
            } else {
                0xFFu8
            },
    )
}

/// RGBA bytes narrowed to RGB.
pub open spec fn rgba_to_rgb(d: Seq<u8>) -> Seq<u8> {
    Seq::new((3 * (d.len() / 4)) as nat, |k: int| d[4 * (k / 3) + k % 3])
}

/// The RGBA pixels of on-disk bitmap `d` at the header's depth.
pub open spec fn canonical(h: CommonHeader, pal: Seq<[u8; 4]>, d: Seq<u8>) -> Option<Seq<u8>> {
    if h.depth == 8 {
        if indices_fit(d, pal) {
            Some(expand_spec(d, pal))
        } else {
            None
        }
    } else if h.depth == 24 {
        Some(rgb_to_rgba(d))
    } else if h.depth == 32 {
        Some(d)
    } else {
        None
    }
}

/// The palette read from `s` for header `h`.
pub open spec fn palette_at(s: Seq<u8>, h: CommonHeader) -> Seq<[u8; 4]> {
    Seq::new(
        palette_count(h) as nat,
        |i: int| {
            let p = h.length + 4 * i;
            [s[p], s[p + 1], s[p + 2], s[p + 3]]
        },
    )
}

/// Whether `s` decodes as a CZ# image, and into which pixels.
pub open spec fn decoded_bitmap(s: Seq<u8>) -> Option<Seq<u8>> {
    match parse_common(s) {
        Ok(h) => if (has_extended(h) && parse_extended(s, 15, h.length) is None) || payload_start(
            h,
        ) > s.len() {
            None
        } else {
            match disk_bitmap(s, h) {
                Some(d) => if d.len() == (h.width * h.height) * (h.depth / 8) {
                    canonical(h, palette_at(s, h), d)
                } else {
                    None
                },
                None => None,
            }
        },
        Err(_) => None,
    }
}

fn widen_rgb(d: &[u8]) -> (r: Vec<u8>)
    ensures
        r@ == rgb_to_rgba(d@),
{
    let len = d.len();
    let n = len / 3;
    let mut out: Vec<u8> = Vec::new();
    let mut p: usize = 0;
    while p < n
        invariant
            len == d@.len(),
            p <= n,
            n == d@.len() / 3,
            out@ == rgb_to_rgba(d@.take(3 * p)),
        decreases n - p,
    {
        out.push(d[3 * p]);
        out.push(d[3 * p + 1]);
        out.push(d[3 * p + 2]);
        out.push(0xFFu8);
        p += 1;
        assert(out@ =~= rgb_to_rgba(d@.take(3 * p)));
    }
    assert(rgb_to_rgba(d@.take(3 * n)) =~= rgb_to_rgba(d@));
    out
}

fn narrow_rgba(d: &[u8]) -> (r: Vec<u8>)
    ensures
        r@ == rgba_to_rgb(d@),
{
    let len = d.len();
    let n = len / 4;
    let mut out: Vec<u8> = Vec::new();
    let mut p: usize = 0;
    while p < n
        invariant
            len == d@.len(),
            p <= n,
            n == d@.len() / 4,
            out@ == rgba_to_rgb(d@.take(4 * p)),
        decreases n - p,
    {
        out.push(d[4 * p]);
        out.push(d[4 * p + 1]);
        out.push(d[4 * p + 2]);
        p += 1;
        assert(out@ =~= rgba_to_rgb(d@.take(4 * p)));
    }
    assert(rgba_to_rgb(d@.take(4 * n)) =~= rgba_to_rgb(d@));
    out
}

/// Whether the image is as `from_raw` makes it, in any version but CZ5:
/// 32-bit pixels of the right size, a 15-byte header and no extended header.
pub open spec fn plain_rgba(f: CzFile) -> bool {
    let h = f.header_common;
    &&& h.depth == 32
    &&& h.length == 15
    &&& f.header_extended is None
    &&& f.bitmap@.len() == 4 * (h.width * h.height)
    &&& 4 * (h.width * h.height) < u32::MAX
    &&& h.version != CzVersion::CZ5
}

/// Whether two inputs agree on their first 15 bytes, which hold the
/// common header.
proof fn lemma_parse_common_prefix(s: Seq<u8>, t: Seq<u8>)
    requires
        s.len() >= 15,
        t.len() >= 15,
        s.subrange(0, 15) == t.subrange(0, 15),
    ensures
        parse_common(s) == parse_common(t),
{
    assert forall|k: int| 0 <= k < 15 implies s[k] == t[k] by {
        assert(s[k] == s.subrange(0, 15)[k]);
        assert(t[k] == t.subrange(0, 15)[k]);
    }
}

/// Whether the header length matches what follows the common header:
/// nothing (15), an extended header without offsets (28) or with them (36);
/// CZ2 files always have their own 0x12-byte layout.
pub open spec fn standard_layout(f: CzFile) -> bool {
    let h = f.header_common;
    h.version == CzVersion::CZ2 || match f.header_extended {
        None => h.length == 15,
        Some(e) => h.length == if e.offset_width is Some {
            36u32
        } else {
            28u32
        },
    }
}

/// The on-disk bitmap written for a 24- or 32-bit image.
pub open spec fn rgb_disk(f: CzFile) -> Seq<u8> {
    if f.header_common.depth == 24 {
        rgba_to_rgb(f.bitmap@)
    } else {
        f.bitmap@
    }
}

/// The pixels a 24- or 32-bit image reads back as: 24-bit images lose
/// their alpha, which reads back as opaque.
pub open spec fn reencoded_pixels(f: CzFile) -> Seq<u8> {
    if f.header_common.depth == 24 {
        rgb_to_rgba(rgba_to_rgb(f.bitmap@))
    } else {
        f.bitmap@
    }
}

proof fn lemma_parse_extended_shift(s: Seq<u8>, t: Seq<u8>, pos: int, l: u32)
    requires
        0 <= pos,
        t.len() == if l > 28 {
            21int
        } else {
            13int
        },
        pos + t.len() <= s.len(),
        forall|k: int| 0 <= k < t.len() ==> #[trigger] s[pos + k] == t[k],
    ensures
        parse_extended(s, pos, l) == parse_extended(t, 0, l),
{
    assert(s[pos + 0] == t[0] && s[pos + 1] == t[1] && s[pos + 2] == t[2] && s[pos + 3] == t[3]
        && s[pos + 4] == t[4]);
    assert(s[pos + 5] == t[5] && s[pos + 6] == t[6] && s[pos + 7] == t[7] && s[pos + 8] == t[8]);
    assert(s[pos + 9] == t[9] && s[pos + 10] == t[10] && s[pos + 11] == t[11] && s[pos + 12]
        == t[12]);
    if l > 28 {
        assert(s[pos + 13] == t[13] && s[pos + 14] == t[14] && s[pos + 15] == t[15] && s[pos + 16]
            == t[16]);
        assert(s[pos + 17] == t[17] && s[pos + 18] == t[18] && s[pos + 19] == t[19] && s[pos + 20]
            == t[20]);
    }
    let a = parse_extended(s, pos, l).unwrap();
    let b = parse_extended(t, 0, l).unwrap();
    assert(a.unknown_1@ =~= b.unknown_1@);
    vstd::array::axiom_array_ext_equal(a.unknown_1, b.unknown_1);
}

/// Round trip: the bytes that `encode` writes for a 24- or 32-bit image
/// whose header length matches its layout decode to its pixels, 24-bit ones
/// with opaque alpha. The requirements on the payload are what each
/// version's encoder promises.
pub proof fn lemma_rgb_decodes(f: CzFile, out: Seq<u8>)
    requires
        encodable(f),
        standard_layout(f),
        f.header_common.depth == 24 || f.header_common.depth == 32,
        out.len() >= 15 + second_section(f).len(),
        out.subrange(0, 15) == common_header_bytes(written_header(f.header_common)),
        out.subrange(15, 15 + second_section(f).len() as int) == second_section(f),
        ({
            let h = f.header_common;
            let p = 15 + second_section(f).len() as int;
            let d = rgb_disk(f);
            &&& h.version == CzVersion::CZ0 ==> out.subrange(p, out.len() as int) == d
            &&& h.version == CzVersion::CZ1 ==> payload_a(out, p) == Ok::<Seq<u8>, CzError>(d)
            &&& h.version == CzVersion::CZ2 ==> payload_b(out, p) == Ok::<Seq<u8>, CzError>(d)
            &&& h.version == CzVersion::CZ3 ==> payload_a(out, p) == Ok::<Seq<u8>, CzError>(
                crate::linediff::diff_seq(d, stride_of(h), block_height_of(h), h.height * stride_of(h)),
            )
            &&& h.version == CzVersion::CZ4 ==> payload_a(out, p) == Ok::<Seq<u8>, CzError>(
                crate::cz4::planes_diff(d, h.width as int, h.height as int, block_height_of(h)),
            )
        }),
    ensures
        decoded_bitmap(out) == Some(reencoded_pixels(f)),
{
    let h = f.header_common;
    let b = f.bitmap@;
    let d = rgb_disk(f);
    let wh = written_header(h);
    let hb = common_header_bytes(wh);
    crate::common::lemma_common_header_round_trip(wh);
    assert(hb.subrange(0, 15) =~= hb);
    lemma_parse_common_prefix(out, hb);
    assert(palette_count(wh) == 0);
    assert(payload_start(wh) == 15 + second_section(f).len());
    if has_extended(wh) {
        let e = f.header_extended.unwrap();
        let eb = extended_header_bytes(e);
        crate::common::lemma_extended_header_round_trip(e, wh.length);
        assert forall|k: int| 0 <= k < eb.len() implies #[trigger] out[15 + k] == eb[k] by {
            assert(out.subrange(15, 15 + eb.len() as int)[k] == out[15 + k]);
        }
        lemma_parse_extended_shift(out, eb, 15, wh.length);
    }
    let pix = h.width * h.height;
    let len = pix * (h.depth / 8);
    if h.depth == 24 {
        assert(b.len() / 4 == pix) by (nonlinear_arith)
            requires
                b.len() == 4 * pix,
        ;
        assert(len == 3 * pix) by (nonlinear_arith)
            requires
                len == pix * (h.depth / 8),
                h.depth == 24,
        ;
    } else {
        assert(len == b.len()) by (nonlinear_arith)
            requires
                h.depth == 32,
                b.len() == 4 * pix,
                len == pix * (h.depth / 8),
        ;
    }
    assert(d.len() == len);
    if h.version == CzVersion::CZ3 {
        let st = stride_of(h);
        assert(h.height * st == len) by (nonlinear_arith)
            requires
                st == h.width * (h.depth / 8),
                len == (h.width * h.height) * (h.depth / 8),
        ;
        if st == 0 {
            assert(d.len() == 0);
            assert(undiff_seq(crate::linediff::diff_seq(d, st, block_height_of(h), 0), st, block_height_of(h), 0) =~= d);
        } else {
            crate::linediff::lemma_line_diff_inverts(d, st, block_height_of(h), h.height * st);
            assert(d.take(d.len() as int) =~= d);
        }
    } else if h.version == CzVersion::CZ4 {
        crate::cz4::lemma_planes_invert(d, h.width as int, h.height as int, block_height_of(h));
        assert(d.take(d.len() as int) =~= d);
    }
}

/// Whether the image can be encoded, with `n_indices` pixel indices and
/// `n_colors` palette colors for depth 8: pixels of the size the header
/// gives, small enough for 32-bit chunk sizes, a version and depth that
/// have an encoding, a full palette at depth 8, and complete offsets in an
/// extended header that is written.
pub open spec fn encodable_with(f: CzFile, n_indices: int, n_colors: int) -> bool {
    let h = f.header_common;
    &&& f.bitmap@.len() == 4 * (h.width * h.height)
    &&& 4 * (h.width * h.height) < u32::MAX
    &&& h.version != CzVersion::CZ5
    &&& (h.depth == 8 || h.depth == 24 || h.depth == 32)
    &&& (h.depth == 8 ==> n_indices == h.width * h.height && n_colors == 256)
    &&& (h.version == CzVersion::CZ4 ==> h.depth == 32)
    &&& (h.version != CzVersion::CZ2 && f.header_extended is Some ==> f.header_extended.unwrap().wf())
}

/// Whether `encode` can encode the image: as `encodable_with`, with the
/// image's own palette.
pub open spec fn encodable(f: CzFile) -> bool {
    encodable_with(
        f,
        f.header_common.width * f.header_common.height,
        match f.palette {
            Some(p) => p.colors@.len() as int,
            None => 0,
        },
    ) && (f.header_common.depth == 8 ==> f.palette is Some)
}

/// The header as it is written: CZ2 headers are 0x12 bytes long.
pub open spec fn written_header(h: CommonHeader) -> CommonHeader {
    if h.version == CzVersion::CZ2 {
        CommonHeader { length: 0x12, ..h }
    } else {
        h
    }
}

/// The bytes written after the common header: CZ2's three opaque bytes, or
/// the extended header when there is one.
pub open spec fn second_section(f: CzFile) -> Seq<u8> {
    if f.header_common.version == CzVersion::CZ2 {
        seq![0u8, 0u8, 0u8]
    } else {
        match f.header_extended {
            Some(e) => extended_header_bytes(e),
            None => seq![],
        }
    }
}

impl CzFile {
    /// Decodes a CZ# image from its bytes.
    pub fn decode(input: &[u8]) -> (r: Result<Self, CzError>)
        ensures
            r is Ok <==> decoded_bitmap(input@) is Some,
            parse_common(input@) matches Err(e) ==> r == Err::<CzFile, CzError>(e),
            r matches Ok(f) ==> {
                let h = parse_common(input@)->Ok_0;
                &&& f.header_common == h
                &&& f.bitmap@ == decoded_bitmap(input@).unwrap()
                &&& f.header_extended is Some == has_extended(h)
                &&& (f.header_extended matches Some(e) ==> parse_extended(input@, 15, h.length) is Some
                    && e == parse_extended(input@, 15, h.length).unwrap())
                &&& f.palette is Some == (h.depth <= 8)
                &&& f.palette matches Some(p) ==> p.colors@ == palette_at(input@, h)
            },
    {
        let header = CommonHeader::from_bytes(input)?;
        let mut ext: Option<ExtendedHeader> = None;
        if header.length > 15 && header.version != CzVersion::CZ2 {
            ext = Some(ExtendedHeader::from_bytes(input, 15, &header)?);
        }
        let hl = header.length as usize;
        if hl > input.len() {
            return Err(CzError::IoError);
        }
        let mut pos = hl;
        let mut palette: Option<Palette> = None;
        if header.depth <= 8 {
            let count = palette_size(&header);
            let p = get_palette(input, pos, count)?;
            proof {
                assert(p.colors@ =~= palette_at(input@, header)) by {
                    assert forall|i: int| 0 <= i < count implies #[trigger] p.colors@[i]
                        == palette_at(input@, header)[i] by {
                        let q = hl + 4 * i;
                        assert(p.colors@[i]@ == input@.subrange(q, q + 4));
                        assert(p.colors@[i]@[0] == input@[q]);
                        assert(p.colors@[i]@[1] == input@[q + 1]);
                        assert(p.colors@[i]@[2] == input@[q + 2]);
                        assert(p.colors@[i]@[3] == input@[q + 3]);
                        vstd::array::axiom_array_ext_equal(
                            p.colors@[i],
                            palette_at(input@, header)[i],
                        );
                    }
                }
            }
            pos = pos + 4 * count;
            palette = Some(p);
        } else {
            if input.len() < pos {
                return Err(CzError::IoError);
            }
        }
        let disk: Vec<u8> = match header.version {
            CzVersion::CZ0 => crate::cz0::decode(input, pos),
            CzVersion::CZ1 => crate::cz1::decode(input, pos)?,
            CzVersion::CZ2 => crate::cz2::decode(input, pos)?,
            CzVersion::CZ3 => crate::cz3::decode(input, pos, &header)?,
            CzVersion::CZ4 => crate::cz4::decode(input, pos, &header)?,
            CzVersion::CZ5 => return Err(CzError::Unsupported(5)),
        };
        assert(disk_bitmap(input@, header) == Some(disk@));
        let pixels = pixel_count(&header) as u64;
        let bpp = (header.depth / 8) as u64;
        assert(pixels * bpp <= 0xFFFF_FFFF * 0x2000) by (nonlinear_arith)
            requires
                pixels <= 0xFFFF_FFFF,
                bpp <= 0x2000,
        ;
        if disk.len() as u64 != pixels * bpp {
            return Err(corrupt("Bitmap size incorrect"));
        }
        let bitmap: Vec<u8> = if header.depth == 4 {
            return Err(CzError::Unsupported(4));
        } else if header.depth == 8 {
            match &palette {
                Some(p) => indexed_to_rgba(disk.as_slice(), p)?,
                None => return Err(CzError::PaletteError),
            }
        } else if header.depth == 24 {
            widen_rgb(disk.as_slice())
        } else if header.depth == 32 {
            disk
        } else {
            return Err(corrupt("Invalid bit depth"));
        };
        Ok(CzFile { header_common: header, header_extended: ext, palette, bitmap })
    }

    /// Encodes the image in the version and depth its header gives. An
    /// image of depth 8 needs a palette; see [`CzFile::encode_with_indices`].
    pub fn encode(&self) -> (r: Result<Vec<u8>, CzError>)
        ensures
            r matches Ok(v) ==> v@.take(15) == common_header_bytes(
                written_header(self.header_common),
            ) && v@.subrange(15, 15 + second_section(*self).len() as int) == second_section(*self),
            self.header_common.depth == 8 && self.palette is None ==> r is Err,
            self.header_common.version == CzVersion::CZ5 ==> r is Err,
            self.bitmap@.len() != 4 * (self.header_common.width * self.header_common.height)
                ==> r == Err::<Vec<u8>, CzError>(CzError::BitmapFormat),
            r is Ok && self.header_common.version == CzVersion::CZ0
                && self.header_common.depth == 32 ==> r->Ok_0@ == common_header_bytes(
                self.header_common,
            ) + second_section(*self) + self.bitmap@,
            plain_rgba(*self) ==> r is Ok && decoded_bitmap(r->Ok_0@) == Some(self.bitmap@),
            r is Ok && standard_layout(*self) && self.header_common.depth != 8 ==> decoded_bitmap(
                r->Ok_0@,
            ) == Some(reencoded_pixels(*self)),
            r is Ok <==> encodable(*self),
    {
        if self.header_common.depth == 8 {
            match &self.palette {
                Some(p) => {
                    let idx = match rgba_to_indexed(self.bitmap.as_slice(), p) {
                        Ok(v) => v,
                        Err(e) => return Err(e),
                    };
                    self.encode_with_indices(idx.as_slice(), p)
                },
                None => {
                    if self.bitmap.len() as u64 != 4 * pixel_count(&self.header_common) as u64 {
                        return Err(CzError::BitmapFormat);
                    }
                    Err(CzError::PaletteError)
                },
            }
        } else {
            self.encode_with_indices(&[], &Palette { colors: Vec::new() })
        }
    }

    /// Encodes the image; at depth 8 the pixels are written as `indices`
    /// into `palette`, as a quantizer gave them.
    #[verifier::rlimit(100)]
    pub fn encode_with_indices(&self, indices: &[u8], palette: &Palette) -> (r: Result<
        Vec<u8>,
        CzError,
    >)
        ensures
            r matches Ok(v) ==> v@.take(15) == common_header_bytes(
                written_header(self.header_common),
            ) && v@.subrange(15, 15 + second_section(*self).len() as int) == second_section(*self),
            self.header_common.version == CzVersion::CZ5 ==> r is Err,
            self.bitmap@.len() != 4 * (self.header_common.width * self.header_common.height)
                ==> r == Err::<Vec<u8>, CzError>(CzError::BitmapFormat),
            r is Ok && self.header_common.version == CzVersion::CZ0
                && self.header_common.depth == 32 ==> r->Ok_0@ == common_header_bytes(
                self.header_common,
            ) + second_section(*self) + self.bitmap@,
            plain_rgba(*self) ==> r is Ok && decoded_bitmap(r->Ok_0@) == Some(self.bitmap@),
            r is Ok && standard_layout(*self) && self.header_common.depth != 8 ==> decoded_bitmap(
                r->Ok_0@,
            ) == Some(reencoded_pixels(*self)),
            r is Ok <==> encodable_with(*self, indices@.len() as int, palette.colors@.len() as int),
    {
        let h = self.header_common;
        let pixels = pixel_count(&h);
        assert(pixels * 4 <= 0x4_0000_0000) by (nonlinear_arith)
            requires
                pixels <= 0xFFFF_FFFF,
        ;
        if self.bitmap.len() as u64 != 4 * pixels as u64 {
            return Err(CzError::BitmapFormat);
        }
        if h.version == CzVersion::CZ5 {
            return Err(CzError::Unsupported(5));
        }
        if 4 * pixels as u64 >= u32::MAX as u64 {
            return Err(corrupt("Image too large"));
        }
        let mut header = h;
        if header.version == CzVersion::CZ2 {
            header.length = 0x12;
        }
        let mut out: Vec<u8> = Vec::new();
        header.write_into(&mut out);
        if header.version == CzVersion::CZ2 {
            out.push(0u8);
            out.push(0u8);
            out.push(0u8);
        } else {
            match &self.header_extended {
                Some(e) => {
                    if e.offset_width.is_some() != e.offset_height.is_some()
                        || e.offset_width.is_some() != e.unknown_2.is_some() {
                        return Err(corrupt("Incomplete extended header offsets"));
                    }
                    e.write_into(&mut out);
                },
                None => {},
            }
        }
        let ghost prefix = out@;
        assert(prefix =~= common_header_bytes(written_header(h)) + second_section(*self));
        let disk: Vec<u8> = if h.depth == 4 {
            return Err(CzError::Unsupported(4));
        } else if h.depth == 8 {
            if indices.len() != pixels {
                return Err(CzError::BitmapFormat);
            }
            if palette.colors.len() != 256 {
                return Err(CzError::PaletteError);
            }
            let mut k: usize = 0;
            while k < palette.colors.len()
                invariant
                    k <= palette.colors@.len(),
                    out@.len() >= prefix.len(),
                    out@.subrange(0, prefix.len() as int) == prefix,
                decreases palette.colors@.len() - k,
            {
                let c = palette.colors[k];
                let ghost before = out@;
                out.push(c[0]);
                out.push(c[1]);
                out.push(c[2]);
                out.push(c[3]);
                assert(out@.subrange(0, prefix.len() as int) =~= before.subrange(
                    0,
                    prefix.len() as int,
                ));
                k += 1;
            }
            copy_range(indices, 0, indices.len())
        } else if h.depth == 24 {
            narrow_rgba(self.bitmap.as_slice())
        } else if h.depth == 32 {
            copy_range(self.bitmap.as_slice(), 0, self.bitmap.len())
        } else {
            return Err(corrupt("Invalid bit depth"));
        };
        let ghost mid = out@;
        assert(mid.len() >= prefix.len() && mid.subrange(0, prefix.len() as int) == prefix);
        assert(disk@.len() == pixels * (h.depth / 8)) by (nonlinear_arith)
            requires
                h.depth == 8 ==> disk@.len() == pixels,
                h.depth == 24 ==> disk@.len() == 3 * (self.bitmap@.len() / 4),
                h.depth == 32 ==> disk@.len() == self.bitmap@.len(),
                self.bitmap@.len() == 4 * pixels,
                h.depth == 8 || h.depth == 24 || h.depth == 32,
        ;
        match h.version {
            CzVersion::CZ0 => {
                crate::cz0::encode(&mut out, disk.as_slice());
                assert(out@.subrange(0, mid.len() as int) =~= mid);
            },
            CzVersion::CZ1 => {
                crate::cz1::encode(&mut out, disk.as_slice())?;
            },
            CzVersion::CZ2 => {
                crate::cz2::encode(&mut out, disk.as_slice())?;
            },
            CzVersion::CZ3 => {
                assert(h.height * stride_of(h) == pixels * (h.depth / 8)) by (nonlinear_arith)
                    requires
                        pixels == h.width * h.height,
                        stride_of(h) == h.width * (h.depth / 8),
                ;
                crate::cz3::encode(&mut out, disk.as_slice(), &h)?;
            },
            CzVersion::CZ4 => {
                if h.depth != 32 {
                    return Err(CzError::Unsupported(h.depth as u32));
                }
                crate::cz4::encode(&mut out, disk.as_slice(), &h)?;
            },
            CzVersion::CZ5 => {
                return Err(CzError::Unsupported(5));
            },
        }
        assert(out@.subrange(0, mid.len() as int) == mid);
        assert(out@.subrange(0, prefix.len() as int) =~= prefix) by {
            assert forall|k: int| 0 <= k < prefix.len() implies out@[k] == prefix[k] by {
                assert(out@.subrange(0, mid.len() as int)[k] == mid[k]);
                assert(mid.subrange(0, prefix.len() as int)[k] == prefix[k]);
            }
        }
        assert(out@.take(15) =~= prefix.take(15));
        assert(prefix.take(15) =~= common_header_bytes(written_header(h)));
        assert(prefix.subrange(15, 15 + second_section(*self).len() as int) =~= second_section(
            *self,
        ));
        proof {
            if (plain_rgba(*self) || standard_layout(*self)) && h.depth != 8 && encodable_with(
                *self,
                indices@.len() as int,
                palette.colors@.len() as int,
            ) {
                assert(mid == prefix);
                assert(out@.subrange(0, 15) =~= prefix.subrange(0, 15));
                assert(disk@ =~= rgb_disk(*self));
                let p = prefix.len() as int;
                let sl = second_section(*self).len() as int;
                assert(out@.subrange(15, 15 + sl) =~= prefix.subrange(15, 15 + sl)) by {
                    assert forall|k: int| 0 <= k < sl implies #[trigger] out@.subrange(15, 15 + sl)[k]
                        == prefix.subrange(15, 15 + sl)[k] by {
                        assert(out@.subrange(0, prefix.len() as int)[15 + k] == prefix[15 + k]);
                    }
                }
                if h.version == CzVersion::CZ0 {
                    assert(out@.subrange(p, out@.len() as int) =~= disk@);
                }
                lemma_rgb_decodes(*self, out@);
            }
        }
        Ok(out)
    }
}

impl CzFile {
    /// An image of `version` from RGBA pixels: a 15-byte header at depth 32,
    /// no palette and no extended header.
    pub fn from_raw(version: CzVersion, width: u16, height: u16, bitmap: Vec<u8>) -> (r: Self)
        ensures
            r.header_common == (CommonHeader {
                version,
                length: 15,
                width,
                height,
                depth: 32,
                unknown: 0,
            }),
            r.header_extended is None,
            r.palette is None,
            r.bitmap@ == bitmap@,
    {
        CzFile {
            header_common: CommonHeader::new(version, width, height),
            header_extended: None,
            palette: None,
            bitmap,
        }
    }

    /// The image with `header` as its common header.
    pub fn with_header(self, header: CommonHeader) -> (r: Self)
        ensures
            r.header_common == header,
            r.header_extended == self.header_extended,
            r.bitmap@ == self.bitmap@,
    {
        CzFile { header_common: header, ..self }
    }

    /// The image with `ext_header` as its extended header; the header length
    /// becomes 36 with offsets and 28 without.
    pub fn with_extended_header(self, ext_header: ExtendedHeader) -> (r: Self)
        ensures
            r.header_extended == Some(ext_header),
            r.palette == self.palette,
            r.header_common == (CommonHeader {
                length: if ext_header.offset_width is Some {
                    36u32
                } else {
                    28u32
                },
                ..self.header_common
            }),
            r.bitmap@ == self.bitmap@,
    {
        let mut header = self.header_common;
        if ext_header.offset_width.is_some() {
            header.length = 36;
        } else {
            header.length = 28;
        }
        CzFile { header_common: header, header_extended: Some(ext_header), ..self }
    }

    /// Removes the extended header, if any.
    pub fn clear_extended_header(&mut self)
        ensures
            final(self).header_extended is None,
            final(self).header_common == old(self).header_common,
            final(self).bitmap@ == old(self).bitmap@,
    {
        self.header_extended = None;
    }

    /// The palette, if the image has one.
    pub fn palette(&self) -> (r: &Option<Palette>)
        ensures
            *r == self.palette,
    {
        &self.palette
    }

    /// Replaces the palette.
    pub fn set_palette(&mut self, palette: Option<Palette>)
        ensures
            final(self).palette == palette,
            final(self).header_common == old(self).header_common,
            final(self).bitmap@ == old(self).bitmap@,
    {
        self.palette = palette;
    }

    /// Removes the palette, so that an image of depth 8 needs a new one to
    /// be encoded.
    pub fn clear_palette(&mut self)
        ensures
            final(self).palette is None,
            final(self).header_common == old(self).header_common,
            final(self).bitmap@ == old(self).bitmap@,
    {
        self.palette = None;
    }

    /// The common header.
    pub fn header(&self) -> (r: &CommonHeader)
        ensures
            *r == self.header_common,
    {
        &self.header_common
    }

    /// The extended header, if any.
    pub fn extended_header(&self) -> (r: &Option<ExtendedHeader>)
        ensures
            *r == self.header_extended,
    {
        &self.header_extended
    }

    /// Replaces the common header.
    pub fn set_header(&mut self, header: &CommonHeader)
        ensures
            final(self).header_common == *header,
            final(self).bitmap@ == old(self).bitmap@,
    {
        self.header_common = *header;
    }

    /// The RGBA pixels.
    pub fn as_raw(&self) -> (r: &Vec<u8>)
        ensures
            r@ == self.bitmap@,
    {
        &self.bitmap
    }

    /// Takes the image apart into its RGBA pixels.
    pub fn into_raw(self) -> (r: Vec<u8>)
        ensures
            r@ == self.bitmap@,
    {
        self.bitmap
    }

    /// Replaces the RGBA pixels.
    pub fn set_bitmap(&mut self, bitmap: Vec<u8>)
        ensures
            final(self).bitmap@ == bitmap@,
            final(self).header_common == old(self).header_common,
    {
        self.bitmap = bitmap;
    }
}

/// A CZ0 image of 32-bit pixels with a plain 15-byte header decodes to the
/// pixels it was written with.
pub proof fn lemma_cz0_round_trip(h: CommonHeader, b: Seq<u8>)
    requires
        h.version == CzVersion::CZ0,
        h.depth == 32,
        h.length == 15,
        b.len() == 4 * (h.width * h.height),
    ensures
        decoded_bitmap(common_header_bytes(h) + b) == Some(b),
{
    let s = common_header_bytes(h) + b;
    crate::common::lemma_common_header_round_trip(h);
    assert(parse_common(s) == parse_common(common_header_bytes(h))) by {
        assert(s.subrange(0, 15) =~= common_header_bytes(h));
        assert(forall|k: int| 0 <= k < 15 ==> s[k] == common_header_bytes(h)[k]);
    }
    assert(s.subrange(15, s.len() as int) =~= b);
    assert(b.len() == (h.width * h.height) * (h.depth / 8)) by (nonlinear_arith)
        requires
            b.len() == 4 * (h.width * h.height),
            h.depth == 32,
    ;
}

/// An image decoded from `s` can be encoded again, when it has at least
/// one pixel and its pixels fit 32-bit chunk sizes.
pub proof fn lemma_decoded_encodable(s: Seq<u8>, f: CzFile)
    requires
        decoded_bitmap(s) is Some,
        f.header_common == parse_common(s)->Ok_0,
        f.bitmap@ == decoded_bitmap(s).unwrap(),
        f.header_extended is Some == has_extended(f.header_common),
        f.header_extended matches Some(e) ==> e == parse_extended(
            s,
            15,
            f.header_common.length,
        ).unwrap(),
        f.palette is Some == (f.header_common.depth <= 8),
        f.palette matches Some(p) ==> p.colors@ == palette_at(s, f.header_common),
        f.header_common.width * f.header_common.height > 0,
        4 * (f.header_common.width * f.header_common.height) < u32::MAX,
    ensures
        encodable(f),
{
    let h = f.header_common;
    let d = disk_bitmap(s, h).unwrap();
    let wh = h.width * h.height;
    assert(d.len() == wh * (h.depth / 8));
    if h.depth == 24 {
        assert(d.len() / 3 == wh) by (nonlinear_arith)
            requires
                d.len() == wh * (h.depth / 8),
                h.depth == 24,
        ;
    } else if h.depth == 32 {
        assert(d.len() == 4 * wh) by (nonlinear_arith)
            requires
                d.len() == wh * (h.depth / 8),
                h.depth == 32,
        ;
    } else {
        assert(h.depth == 8);
    }
    if h.version == CzVersion::CZ4 {
        assert(h.depth / 8 == 4) by (nonlinear_arith)
            requires
                d.len() == wh * (h.depth / 8),
                d.len() == 4 * wh,
                wh > 0,
        ;
    }
    if h.version != CzVersion::CZ2 && f.header_extended is Some {
        assert(f.header_extended.unwrap().wf());
    }
}

/// Re-encoding a decoded image writes back the header bytes it was read
/// from: the common header (with its color block byte) and, when there is
/// one, the extended header with its opaque bytes, crop, bounds, offsets and
/// trailing word. This holds for files other than CZ2 whose fourth magic
/// byte is zero, whose stored depth is at most 32, and whose header length
/// is that of the extended header they hold (15, 28 or 36).
pub proof fn lemma_header_bytes_preserved(s: Seq<u8>, f: CzFile, out: Seq<u8>)
    requires
        parse_common(s) is Ok,
        f.header_common == parse_common(s)->Ok_0,
        f.header_extended is Some == has_extended(f.header_common),
        f.header_extended matches Some(e) ==> parse_extended(s, 15, f.header_common.length) is Some
            && e == parse_extended(s, 15, f.header_common.length).unwrap(),
        f.header_common.version != CzVersion::CZ2,
        s[3] == 0,
        crate::bytes::u16_at(s, 12) <= 32,
        f.header_common.length == 15 || f.header_common.length == 28
            || f.header_common.length == 36,
        out.len() >= 15 + second_section(f).len(),
        out.take(15) == common_header_bytes(written_header(f.header_common)),
        out.subrange(15, 15 + second_section(f).len() as int) == second_section(f),
    ensures
        15 + second_section(f).len() == f.header_common.length,
        out.subrange(0, f.header_common.length as int) == s.subrange(
            0,
            f.header_common.length as int,
        ),
{
    let h = f.header_common;
    crate::common::lemma_common_header_preserved(s);
    let l = h.length as int;
    if f.header_extended is Some {
        crate::common::lemma_extended_header_preserved(s, 15, h.length);
        assert(out.subrange(0, l) =~= out.take(15) + out.subrange(15, l));
        assert(s.subrange(0, l) =~= s.subrange(0, 15) + s.subrange(15, l));
    } else {
        assert(out.subrange(0, l) =~= out.take(15));
    }
}

} // verus!
