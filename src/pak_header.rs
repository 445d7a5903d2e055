//! The fixed header of a PAK archive and its feature flags.

use vstd::prelude::*;
use crate::bytes::{push_u32, u32_bytes};

verus! {

/// Flags which select optional sections of a PAK archive.
#[derive(Clone, Copy, Debug, PartialEq, Eq, Structural)]
pub struct PakFlags(pub u32);

/// Bit 8: every entry carries a 12-byte opaque record.
pub open spec fn flag_blobs(f: u32) -> bool {
    f & 0x100 != 0
}

/// Bit 9: the archive holds a name table.
pub open spec fn flag_names(f: u32) -> bool {
    f & 0x200 != 0
}

/// The number of pre-data slots that the low three bits select.
pub open spec fn pre_count_of(f: u32) -> usize {
    let k = f % 8;
    if k == 0 {
        1
    } else if k == 1 {
        2
    } else if k == 2 {
        4
    } else if k == 3 {
        5
    } else if k == 4 {
        7
    } else {
        0
    }
}

impl PakFlags {
    /// Whether each entry carries a 12-byte opaque record.
    pub fn has_unknown_data1(&self) -> (r: bool)
        ensures
            r == flag_blobs(self.0),
    {
        self.0 & 0x100 != 0
    }

    /// Whether the archive has a name table.
    pub fn has_names(&self) -> (r: bool)
        ensures
            r == flag_names(self.0),
    {
        self.0 & 0x200 != 0
    }

    /// The number of pre-data slots selected by the low three bits.
    pub fn extra_pre_count(&self) -> (r: usize)
        ensures
            r == pre_count_of(self.0),
    {
        let k = self.0 % 8;
        if k == 0 {
            1
        } else if k == 1 {
            2
        } else if k == 2 {
            4
        } else if k == 3 {
            5
        } else if k == 4 {
            7
        } else {
            0
        }
    }
}

/// The 36-byte header of a PAK archive.
#[derive(Clone, Copy, Debug, PartialEq, Eq, Structural)]
pub struct Header {
    /// Absolute byte offset of the first entry's data.
    pub data_offset: u32,
    /// Number of entries.
    pub entry_count: u32,
    /// Identifier of the first entry.
    pub id_start: u32,
    /// Alignment unit of the entry region; offsets count these.
    pub block_size: u32,
    /// Offset of the subdirectory name, when names are present.
    pub subdir_offset: u32,
    pub unknown2: u32,
    pub unknown3: u32,
    pub unknown4: u32,
    pub flags: PakFlags,
}

/// The bytes of a header, nine little-endian words in field order.
pub open spec fn header_bytes(h: Header) -> Seq<u8> {
    u32_bytes(h.data_offset) + u32_bytes(h.entry_count) + u32_bytes(h.id_start) + u32_bytes(
        h.block_size,
    ) + u32_bytes(h.subdir_offset) + u32_bytes(h.unknown2) + u32_bytes(h.unknown3) + u32_bytes(
        h.unknown4,
    ) + u32_bytes(h.flags.0)
}

impl Header {
    /// Appends the 36 header bytes.
    pub fn write_into(&self, output: &mut Vec<u8>)
        ensures
            final(output)@ == old(output)@ + header_bytes(*self),
    {
        push_u32(output, self.data_offset);
        push_u32(output, self.entry_count);
        push_u32(output, self.id_start);
        push_u32(output, self.block_size);
        push_u32(output, self.subdir_offset);
        push_u32(output, self.unknown2);
        push_u32(output, self.unknown3);
        push_u32(output, self.unknown4);
        push_u32(output, self.flags.0);
        assert(final(output)@ =~= old(output)@ + header_bytes(*self));
    }

    pub fn block_size(&self) -> (r: u32)
        ensures
            r == self.block_size,
    {
        self.block_size
    }

    pub fn id_start(&self) -> (r: u32)
        ensures
            r == self.id_start,
    {
        self.id_start
    }

    pub fn entry_count(&self) -> (r: u32)
        ensures
            r == self.entry_count,
    {
        self.entry_count
    }

    pub fn data_offset(&self) -> (r: u32)
        ensures
            r == self.data_offset,
    {
        self.data_offset
    }

    pub fn flags(&self) -> (r: &PakFlags)
        ensures
            *r == self.flags,
    {
        &self.flags
    }
}

} // verus!
