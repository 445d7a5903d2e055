//! Types shared by every CZ# version: errors, the version tag and the headers.

use vstd::prelude::*;
use crate::bytes::{
    lemma_u16_bytes_of_read, lemma_u16_round_trip, lemma_u32_bytes_of_read, lemma_u32_round_trip,
    push_u16, push_u32, read_u16, read_u32, u16_at, u16_bytes, u32_at, u32_bytes,
};

verus! {

/// An error from decoding or encoding a CZ# image.
#[derive(Debug, Clone, PartialEq, Eq)]
pub enum CzError {
    /// Expected one version, found another.
    VersionMismatch(u8, u8),
    /// A palette is missing, or an index falls outside it.
    PaletteError,
    /// A bitmap's size does not match the image's size.
    BitmapFormat,
    /// A version number outside 0 to 5.
    InvalidVersion(u32),
    /// The data is inconsistent.
    Corrupt(String),
    /// The magic bytes are not those of a CZ# file.
    NotCzFile,
    /// The input ended before the data it declares.
    IoError,
    /// The compressed data could not be decoded.
    DecodeError,
    /// A version or bit depth that this library does not handle.
    Unsupported(u32),
}

/// The CZ# format versions.
#[derive(Debug, Clone, Copy, PartialEq, Eq, Structural)]
pub enum CzVersion {
    CZ0,
    CZ1,
    CZ2,
    CZ3,
    CZ4,
    CZ5,
}

/// The version with number `v`, if there is one.
pub open spec fn version_of(v: u8) -> Option<CzVersion> {
    if v == 0 {
        Some(CzVersion::CZ0)
    } else if v == 1 {
        Some(CzVersion::CZ1)
    } else if v == 2 {
        Some(CzVersion::CZ2)
    } else if v == 3 {
        Some(CzVersion::CZ3)
    } else if v == 4 {
        Some(CzVersion::CZ4)
    } else if v == 5 {
        Some(CzVersion::CZ5)
    } else {
        None
    }
}

/// The number of a version.
pub open spec fn version_number(v: CzVersion) -> u8 {
    match v {
        CzVersion::CZ0 => 0,
        CzVersion::CZ1 => 1,
        CzVersion::CZ2 => 2,
        CzVersion::CZ3 => 3,
        CzVersion::CZ4 => 4,
        CzVersion::CZ5 => 5,
    }
}

impl CzVersion {
    /// The version with number `value`.
    pub fn from_number(value: u8) -> (r: Option<CzVersion>)
        ensures
            r == version_of(value),
    {
        if value == 0 {
            Some(CzVersion::CZ0)
        } else if value == 1 {
            Some(CzVersion::CZ1)
        } else if value == 2 {
            Some(CzVersion::CZ2)
        } else if value == 3 {
            Some(CzVersion::CZ3)
        } else if value == 4 {
            Some(CzVersion::CZ4)
        } else if value == 5 {
            Some(CzVersion::CZ5)
        } else {
            None
        }
    }

    /// The number of this version.
    pub fn number(&self) -> (r: u8)
        ensures
            r == version_number(*self),
    {
        match self {
            CzVersion::CZ0 => 0,
            CzVersion::CZ1 => 1,
            CzVersion::CZ2 => 2,
            CzVersion::CZ3 => 3,
            CzVersion::CZ4 => 4,
            CzVersion::CZ5 => 5,
        }
    }
}

/// The first 15 bytes of every CZ# file.
#[derive(Debug, Clone, Copy, PartialEq, Eq, Structural)]
pub struct CommonHeader {
    /// Format version from the magic bytes.
    pub version: CzVersion,
    /// Length of the whole header in bytes.
    pub length: u32,
    /// Width in pixels.
    pub width: u16,
    /// Height in pixels.
    pub height: u16,
    /// Bits per pixel.
    pub depth: u16,
    /// The "color block" byte, kept as it was read.
    pub unknown: u8,
}

/// The 15 bytes of a common header.
pub open spec fn common_header_bytes(h: CommonHeader) -> Seq<u8> {
    seq![0x43u8, 0x5Au8, (0x30 + version_number(h.version)) as u8, 0u8] + u32_bytes(h.length)
        + u16_bytes(h.width) + u16_bytes(h.height) + u16_bytes(h.depth) + seq![h.unknown]
}

/// What the version byte `b` of a file with a bad version is reported as.
pub open spec fn invalid_version_code(b: u8) -> u32 {
    if b >= 0x30 {
        (b - 0x30) as u32
    } else {
        b as u32
    }
}

/// The common header at the start of `s`, or why there is none.
pub open spec fn parse_common(s: Seq<u8>) -> Result<CommonHeader, CzError> {
    if s.len() < 4 {
        Err(CzError::IoError)
    } else if s[0] != 0x43u8 || s[1] != 0x5Au8 {
        Err(CzError::NotCzFile)
    } else if s[2] < 0x30 || version_of((s[2] - 0x30) as u8) is None {
        Err(CzError::InvalidVersion(invalid_version_code(s[2])))
    } else if s.len() < 15 {
        Err(CzError::IoError)
    } else {
        let depth = u16_at(s, 12);
        Ok(
            CommonHeader {
                version: version_of((s[2] - 0x30) as u8).unwrap(),
                length: u32_at(s, 4),
                width: u16_at(s, 8),
                height: u16_at(s, 10),
                depth: if depth > 32 {
                    8
                } else {
                    depth
                },
                unknown: s[14],
            },
        )
    }
}

impl CommonHeader {
    /// A 15-byte header for a 32-bit image.
    pub fn new(version: CzVersion, width: u16, height: u16) -> (r: Self)
        ensures
            r == (CommonHeader { version, length: 15, width, height, depth: 32, unknown: 0 }),
    {
        CommonHeader { version, length: 15, width, height, depth: 32, unknown: 0 }
    }

    /// Reads a common header from the start of `input`. A depth over 32 is
    /// read as 8.
    pub fn from_bytes(input: &[u8]) -> (r: Result<Self, CzError>)
        ensures
            r == parse_common(input@),
    {
        if input.len() < 4 {
            return Err(CzError::IoError);
        }
        if input[0] != 0x43u8 || input[1] != 0x5Au8 {
            return Err(CzError::NotCzFile);
        }
        let b = input[2];
        if b < 0x30 {
            return Err(CzError::InvalidVersion(b as u32));
        }
        let version = match CzVersion::from_number(b - 0x30) {
            Some(v) => v,
            None => return Err(CzError::InvalidVersion((b - 0x30) as u32)),
        };
        if input.len() < 15 {
            return Err(CzError::IoError);
        }
        let depth = read_u16(input, 12);
        Ok(
            CommonHeader {
                version,
                length: read_u32(input, 4),
                width: read_u16(input, 8),
                height: read_u16(input, 10),
                depth: if depth > 32 {
                    8
                } else {
                    depth
                },
                unknown: input[14],
            },
        )
    }

    /// Appends the 15 header bytes; returns how many were written.
    pub fn write_into(&self, output: &mut Vec<u8>) -> (r: usize)
        ensures
            final(output)@ == old(output)@ + common_header_bytes(*self),
            r == 15,
    {
        output.push(0x43u8);
        output.push(0x5Au8);
        output.push(0x30u8 + self.version.number());
        output.push(0u8);
        push_u32(output, self.length);
        push_u16(output, self.width);
        push_u16(output, self.height);
        push_u16(output, self.depth);
        output.push(self.unknown);
        assert(final(output)@ =~= old(output)@ + common_header_bytes(*self));
        15
    }

    pub fn set_length(&mut self, length: u32)
        ensures
            *final(self) == (CommonHeader { length, ..*old(self) }),
    {
        self.length = length;
    }

    pub fn common(&self) -> (r: &CommonHeader)
        ensures
            *r == *self,
    {
        self
    }

    pub fn version(&self) -> (r: CzVersion)
        ensures
            r == self.version,
    {
        self.version
    }

    /// Sets the version from its number; numbers over 5 are refused.
    pub fn set_version(&mut self, version: u8) -> (r: Result<(), CzError>)
        ensures
            version_of(version) is Some ==> r is Ok && *final(self) == (CommonHeader {
                version: version_of(version).unwrap(),
                ..*old(self)
            }),
            version_of(version) is None ==> r == Err::<(), CzError>(
                CzError::InvalidVersion(version as u32),
            ) && *final(self) == *old(self),
    {
        match CzVersion::from_number(version) {
            Some(v) => {
                self.version = v;
                Ok(())
            },
            None => Err(CzError::InvalidVersion(version as u32)),
        }
    }

    pub fn length(&self) -> (r: usize)
        ensures
            r == self.length,
    {
        self.length as usize
    }

    pub fn width(&self) -> (r: u16)
        ensures
            r == self.width,
    {
        self.width
    }

    pub fn set_width(&mut self, width: u16)
        ensures
            *final(self) == (CommonHeader { width, ..*old(self) }),
    {
        self.width = width;
    }

    pub fn height(&self) -> (r: u16)
        ensures
            r == self.height,
    {
        self.height
    }

    pub fn set_height(&mut self, height: u16)
        ensures
            *final(self) == (CommonHeader { height, ..*old(self) }),
    {
        self.height = height;
    }

    pub fn depth(&self) -> (r: u16)
        ensures
            r == self.depth,
    {
        self.depth
    }

    pub fn set_depth(&mut self, depth: u16)
        ensures
            *final(self) == (CommonHeader { depth, ..*old(self) }),
    {
        self.depth = depth;
    }

    pub fn color_block(&self) -> (r: u8)
        ensures
            r == self.unknown,
    {
        self.unknown
    }
}

/// Reading back the bytes of a common header gives the header, when its
/// depth is at most 32.
pub proof fn lemma_common_header_round_trip(h: CommonHeader)
    requires
        h.depth <= 32,
    ensures
        parse_common(common_header_bytes(h)) == Ok::<CommonHeader, CzError>(h),
{
    let s = common_header_bytes(h);
    lemma_u32_round_trip(h.length);
    lemma_u16_round_trip(h.width);
    lemma_u16_round_trip(h.height);
    lemma_u16_round_trip(h.depth);
    assert(s.subrange(4, 8) =~= u32_bytes(h.length));
    assert(u32_at(s, 4) == u32_at(u32_bytes(h.length), 0));
    assert(u16_at(s, 8) == u16_at(u16_bytes(h.width), 0));
    assert(u16_at(s, 10) == u16_at(u16_bytes(h.height), 0));
    assert(u16_at(s, 12) == u16_at(u16_bytes(h.depth), 0));
}

/// Writing a header read from `s` gives back the first 15 bytes of `s`,
/// when the fourth byte is zero and the depth is at most 32.
pub proof fn lemma_common_header_preserved(s: Seq<u8>)
    requires
        parse_common(s) is Ok,
        s[3] == 0,
        u16_at(s, 12) <= 32,
    ensures
        common_header_bytes(parse_common(s).unwrap()) == s.subrange(0, 15),
{
    lemma_u32_bytes_of_read(s[4], s[5], s[6], s[7]);
    lemma_u16_bytes_of_read(s[8], s[9]);
    lemma_u16_bytes_of_read(s[10], s[11]);
    lemma_u16_bytes_of_read(s[12], s[13]);
    let h = parse_common(s).unwrap();
    assert(version_number(h.version) == s[2] - 0x30);
    assert(common_header_bytes(h) =~= s.subrange(0, 15));
}

/// The optional header section after the common header: crop, bounds and
/// offset metadata, kept as read.
#[derive(Debug, Clone, Copy)]
pub struct ExtendedHeader {
    /// Opaque bytes.
    pub unknown_1: [u8; 5],
    /// Width of the cropped image area.
    pub crop_width: u16,
    /// Height of the cropped image area.
    pub crop_height: u16,
    /// Bounding box width.
    pub bounds_width: u16,
    /// Bounding box height.
    pub bounds_height: u16,
    /// Horizontal offset, present in headers longer than 28 bytes.
    pub offset_width: Option<u16>,
    /// Vertical offset, present in headers longer than 28 bytes.
    pub offset_height: Option<u16>,
    /// Opaque word that follows the offsets.
    pub unknown_2: Option<u32>,
}

impl ExtendedHeader {
    /// Whether the three optional fields are all present or all absent.
    pub open spec fn wf(&self) -> bool {
        self.offset_width.is_some() == self.offset_height.is_some() && self.offset_width.is_some()
            == self.unknown_2.is_some()
    }
}

/// The bytes of an extended header.
pub open spec fn extended_header_bytes(e: ExtendedHeader) -> Seq<u8> {
    e.unknown_1@ + u16_bytes(e.crop_width) + u16_bytes(e.crop_height) + u16_bytes(e.bounds_width)
        + u16_bytes(e.bounds_height) + if e.offset_width.is_some() {
        u16_bytes(e.offset_width.unwrap()) + u16_bytes(e.offset_height.unwrap()) + u32_bytes(
            e.unknown_2.unwrap(),
        )
    } else {
        seq![]
    }
}

/// The extended header at `pos` of `s`, with offsets when the header is
/// longer than 28 bytes; `None` when `s` is too short.
pub open spec fn parse_extended(s: Seq<u8>, pos: int, header_length: u32) -> Option<
    ExtendedHeader,
> {
    let long = header_length > 28;
    if pos + 13 > s.len() || (long && pos + 21 > s.len()) {
        None
    } else {
        Some(
            ExtendedHeader {
                unknown_1: [s[pos], s[pos + 1], s[pos + 2], s[pos + 3], s[pos + 4]],
                crop_width: u16_at(s, pos + 5),
                crop_height: u16_at(s, pos + 7),
                bounds_width: u16_at(s, pos + 9),
                bounds_height: u16_at(s, pos + 11),
                offset_width: if long {
                    Some(u16_at(s, pos + 13))
                } else {
                    None
                },
                offset_height: if long {
                    Some(u16_at(s, pos + 15))
                } else {
                    None
                },
                unknown_2: if long {
                    Some(u32_at(s, pos + 17))
                } else {
                    None
                },
            },
        )
    }
}

impl ExtendedHeader {
    /// An extended header of zeros, without offsets.
    pub fn new() -> (r: Self)
        ensures
            r.wf(),
            r.unknown_1@ == seq![0u8, 0u8, 0u8, 0u8, 0u8],
            r.crop_width == 0 && r.crop_height == 0,
            r.bounds_width == 0 && r.bounds_height == 0,
            r.offset_width is None && r.offset_height is None && r.unknown_2 is None,
    {
        let r = ExtendedHeader {
            unknown_1: [0u8; 5],
            crop_width: 0,
            crop_height: 0,
            bounds_width: 0,
            bounds_height: 0,
            offset_width: None,
            offset_height: None,
            unknown_2: None,
        };
        assert(r.unknown_1@ =~= seq![0u8, 0u8, 0u8, 0u8, 0u8]);
        r
    }

    pub fn with_crop(self, crop_width: u16, crop_height: u16) -> (r: Self)
        ensures
            r == (ExtendedHeader { crop_width, crop_height, ..self }),
    {
        ExtendedHeader { crop_width, crop_height, ..self }
    }

    /// Sets the bounding box; note the height comes first.
    pub fn with_bounds(self, bounds_height: u16, bounds_width: u16) -> (r: Self)
        ensures
            r == (ExtendedHeader { bounds_width, bounds_height, ..self }),
    {
        ExtendedHeader { bounds_width, bounds_height, ..self }
    }

    /// Sets the offsets, with a zero opaque word after them.
    pub fn with_offset(self, offset_width: u16, offset_height: u16) -> (r: Self)
        ensures
            r == (ExtendedHeader {
                offset_width: Some(offset_width),
                offset_height: Some(offset_height),
                unknown_2: Some(0u32),
                ..self
            }),
    {
        ExtendedHeader {
            offset_width: Some(offset_width),
            offset_height: Some(offset_height),
            unknown_2: Some(0),
            ..self
        }
    }

    /// Reads an extended header at `pos`; the offsets are read when the
    /// common header says the header is longer than 28 bytes.
    pub fn from_bytes(input: &[u8], pos: usize, common_header: &CommonHeader) -> (r: Result<
        Self,
        CzError,
    >)
        ensures
            r is Ok <==> parse_extended(input@, pos as int, common_header.length) is Some,
            r matches Ok(e) ==> e == parse_extended(input@, pos as int, common_header.length).unwrap()
                && e.wf(),
            r matches Err(e) ==> e == CzError::IoError,
    {
        let long = common_header.length > 28;
        if pos > input.len() || input.len() - pos < 13 || (long && input.len() - pos < 21) {
            return Err(CzError::IoError);
        }
        let unknown_1 = [input[pos], input[pos + 1], input[pos + 2], input[pos + 3], input[pos + 4]];
        let crop_width = read_u16(input, pos + 5);
        let crop_height = read_u16(input, pos + 7);
        let bounds_width = read_u16(input, pos + 9);
        let bounds_height = read_u16(input, pos + 11);
        let mut offset_width = None;
        let mut offset_height = None;
        let mut unknown_2 = None;
        if long {
            offset_width = Some(read_u16(input, pos + 13));
            offset_height = Some(read_u16(input, pos + 15));
            unknown_2 = Some(read_u32(input, pos + 17));
        }
        Ok(
            ExtendedHeader {
                unknown_1,
                crop_width,
                crop_height,
                bounds_width,
                bounds_height,
                offset_width,
                offset_height,
                unknown_2,
            },
        )
    }

    /// Appends the header's bytes; returns how many were written.
    pub fn write_into(&self, output: &mut Vec<u8>) -> (r: usize)
        requires
            self.wf(),
        ensures
            final(output)@ == old(output)@ + extended_header_bytes(*self),
            r == extended_header_bytes(*self).len(),
    {
        let ghost o = old(output)@;
        output.push(self.unknown_1[0]);
        output.push(self.unknown_1[1]);
        output.push(self.unknown_1[2]);
        output.push(self.unknown_1[3]);
        output.push(self.unknown_1[4]);
        push_u16(output, self.crop_width);
        push_u16(output, self.crop_height);
        push_u16(output, self.bounds_width);
        push_u16(output, self.bounds_height);
        assert(self.unknown_1@ =~= seq![
            self.unknown_1[0],
            self.unknown_1[1],
            self.unknown_1[2],
            self.unknown_1[3],
            self.unknown_1[4],
        ]);
        match (self.offset_width, self.offset_height, self.unknown_2) {
            (Some(w), Some(h), Some(u)) => {
                push_u16(output, w);
                push_u16(output, h);
                push_u32(output, u);
                assert(output@ =~= o + extended_header_bytes(*self));
                21
            },
            _ => {
                assert(output@ =~= o + extended_header_bytes(*self));
                13
            },
        }
    }
}

/// Reading back the bytes of a well-formed extended header gives the header.
pub proof fn lemma_extended_header_round_trip(e: ExtendedHeader, header_length: u32)
    requires
        e.wf(),
        e.offset_width.is_some() <==> header_length > 28,
    ensures
        parse_extended(extended_header_bytes(e), 0, header_length) == Some(e),
{
    let s = extended_header_bytes(e);
    lemma_u16_round_trip(e.crop_width);
    lemma_u16_round_trip(e.crop_height);
    lemma_u16_round_trip(e.bounds_width);
    lemma_u16_round_trip(e.bounds_height);
    assert(u16_at(s, 5) == u16_at(u16_bytes(e.crop_width), 0));
    assert(u16_at(s, 7) == u16_at(u16_bytes(e.crop_height), 0));
    assert(u16_at(s, 9) == u16_at(u16_bytes(e.bounds_width), 0));
    assert(u16_at(s, 11) == u16_at(u16_bytes(e.bounds_height), 0));
    if e.offset_width.is_some() {
        lemma_u16_round_trip(e.offset_width.unwrap());
        lemma_u16_round_trip(e.offset_height.unwrap());
        lemma_u32_round_trip(e.unknown_2.unwrap());
        assert(u16_at(s, 13) == u16_at(u16_bytes(e.offset_width.unwrap()), 0));
        assert(u16_at(s, 15) == u16_at(u16_bytes(e.offset_height.unwrap()), 0));
        assert(u32_at(s, 17) == u32_at(u32_bytes(e.unknown_2.unwrap()), 0));
    }
    let p = parse_extended(s, 0, header_length).unwrap();
    assert(p.unknown_1@ =~= e.unknown_1@);
    vstd::array::axiom_array_ext_equal(p.unknown_1, e.unknown_1);
}

/// Writing an extended header read at `pos` gives back the bytes it was
/// read from: 13 of them, or 21 when the header is longer than 28 bytes.
pub proof fn lemma_extended_header_preserved(s: Seq<u8>, pos: int, header_length: u32)
    requires
        0 <= pos,
        parse_extended(s, pos, header_length) is Some,
    ensures
        ({
            let e = parse_extended(s, pos, header_length).unwrap();
            let n = if header_length > 28 {
                21int
            } else {
                13int
            };
            extended_header_bytes(e) == s.subrange(pos, pos + n)
        }),
{
    let e = parse_extended(s, pos, header_length).unwrap();
    lemma_u16_bytes_of_read(s[pos + 5], s[pos + 6]);
    lemma_u16_bytes_of_read(s[pos + 7], s[pos + 8]);
    lemma_u16_bytes_of_read(s[pos + 9], s[pos + 10]);
    lemma_u16_bytes_of_read(s[pos + 11], s[pos + 12]);
    assert(e.unknown_1@ =~= s.subrange(pos, pos + 5));
    if header_length > 28 {
        lemma_u16_bytes_of_read(s[pos + 13], s[pos + 14]);
        lemma_u16_bytes_of_read(s[pos + 15], s[pos + 16]);
        lemma_u32_bytes_of_read(s[pos + 17], s[pos + 18], s[pos + 19], s[pos + 20]);
        assert(extended_header_bytes(e) =~= s.subrange(pos, pos + 21));
    } else {
        assert(extended_header_bytes(e) =~= s.subrange(pos, pos + 13));
    }
}

/// The extended header of an image whose bitmap goes from `old_w` by
/// `old_h` pixels to `new_w` by `new_h`: a crop area, and a bounding box,
/// that covered exactly the old image are resized to the new one; every
/// other field stays.
pub fn auto_adjust_extended(
    ext: ExtendedHeader,
    old_w: u16,
    old_h: u16,
    new_w: u16,
    new_h: u16,
) -> (r: ExtendedHeader)
    ensures
        ext.crop_width == old_w && ext.crop_height == old_h ==> r.crop_width == new_w
            && r.crop_height == new_h,
        !(ext.crop_width == old_w && ext.crop_height == old_h) ==> r.crop_width == ext.crop_width
            && r.crop_height == ext.crop_height,
        ext.bounds_width == old_w && ext.bounds_height == old_h ==> r.bounds_width == new_w
            && r.bounds_height == new_h,
        !(ext.bounds_width == old_w && ext.bounds_height == old_h) ==> r.bounds_width
            == ext.bounds_width && r.bounds_height == ext.bounds_height,
        r.unknown_1 == ext.unknown_1,
        r.offset_width == ext.offset_width,
        r.offset_height == ext.offset_height,
        r.unknown_2 == ext.unknown_2,
{
    let mut r = ext;
    if ext.crop_width == old_w && ext.crop_height == old_h {
        r = r.with_crop(new_w, new_h);
    }
    if ext.bounds_width == old_w && ext.bounds_height == old_h {
        r = r.with_bounds(new_h, new_w);
    }
    r
}

} // verus!
