//! A single entry of a PAK archive and the probe of its file type.

use vstd::prelude::*;
use vstd::utf8::{valid_utf8, decode_utf8};
use vstd::string::StringExecFns;

verus! {

/// What the first bytes of an entry say it holds.
#[derive(Clone, Copy, Debug, PartialEq, Eq, Structural)]
pub enum EntryType {
    CZ0,
    CZ1,
    CZ2,
    CZ3,
    CZ4,
    CZ5,
    /// An MVT video
    MVT,
    /// An OGG audio stream
    OGG,
    /// An OGG audio stream behind the engine's 15-byte wrapper
    OGGPAK,
    /// A WAV audio file
    WAV,
    /// None of the known kinds
    Unknown,
}

/// Whether `d` starts with `p`.
pub open spec fn starts_with(d: Seq<u8>, p: Seq<u8>) -> bool {
    p.len() <= d.len() && d.subrange(0, p.len() as int) == p
}

/// The kind of data that `d` holds, judged by its first bytes.
pub open spec fn entry_type_of(d: Seq<u8>) -> EntryType {
    if d.len() >= 3 && d[0] == 0x43u8 && d[1] == 0x5Au8 {
        if d[2] == 0x30u8 {
            EntryType::CZ0
        } else if d[2] == 0x31u8 {
            EntryType::CZ1
        } else if d[2] == 0x32u8 {
            EntryType::CZ2
        } else if d[2] == 0x33u8 {
            EntryType::CZ3
        } else if d[2] == 0x34u8 {
            EntryType::CZ4
        } else if d[2] == 0x35u8 {
            EntryType::CZ5
        } else {
            EntryType::Unknown
        }
    } else if starts_with(d, seq![0x4Du8, 0x56u8, 0x54u8]) {
        EntryType::MVT
    } else if starts_with(d, seq![0x52u8, 0x49u8, 0x46u8, 0x46u8]) {
        EntryType::WAV
    } else if starts_with(d, seq![0x4Fu8, 0x67u8, 0x67u8, 0x53u8]) {
        EntryType::OGG
    } else if starts_with(d, seq![0x4Fu8, 0x47u8, 0x47u8, 0x50u8, 0x41u8, 0x4Bu8]) {
        EntryType::OGGPAK
    } else {
        EntryType::Unknown
    }
}

/// The file extension of each kind, with its dot.
pub open spec fn extension_of(t: EntryType) -> Seq<char> {
    match t {
        EntryType::CZ0 => seq!['.', 'c', 'z', '0'],
        EntryType::CZ1 => seq!['.', 'c', 'z', '1'],
        EntryType::CZ2 => seq!['.', 'c', 'z', '2'],
        EntryType::CZ3 => seq!['.', 'c', 'z', '3'],
        EntryType::CZ4 => seq!['.', 'c', 'z', '4'],
        EntryType::CZ5 => seq!['.', 'c', 'z', '5'],
        EntryType::MVT => seq!['.', 'm', 'v', 't'],
        EntryType::OGG => seq!['.', 'o', 'g', 'g'],
        EntryType::OGGPAK => seq!['.', 'o', 'g', 'g', 'p', 'a', 'k'],
        EntryType::WAV => seq!['.', 'w', 'a', 'v'],
        EntryType::Unknown => seq![],
    }
}

impl EntryType {
    /// The file extension for this kind, with its dot; empty for `Unknown`.
    pub fn extension(&self) -> (r: &'static str)
        ensures
            r@ == extension_of(*self),
    {
        let r = match self {
            EntryType::CZ0 => ".cz0",
            EntryType::CZ1 => ".cz1",
            EntryType::CZ2 => ".cz2",
            EntryType::CZ3 => ".cz3",
            EntryType::CZ4 => ".cz4",
            EntryType::CZ5 => ".cz5",
            EntryType::MVT => ".mvt",
            EntryType::OGG => ".ogg",
            EntryType::OGGPAK => ".oggpak",
            EntryType::WAV => ".wav",
            EntryType::Unknown => "",
        };
        proof {
            reveal_strlit(".cz0");
            reveal_strlit(".cz1");
            reveal_strlit(".cz2");
            reveal_strlit(".cz3");
            reveal_strlit(".cz4");
            reveal_strlit(".cz5");
            reveal_strlit(".mvt");
            reveal_strlit(".ogg");
            reveal_strlit(".oggpak");
            reveal_strlit(".wav");
            reveal_strlit("");
        }
        r
    }
}

/// A single file stored in a PAK archive.
#[derive(Clone, Debug)]
pub struct Entry {
    /// Position of the entry in the archive's table.
    pub index: usize,
    /// Location of the data, in blocks of the archive's block size.
    pub offset: u32,
    /// Size of the data in bytes.
    pub length: u32,
    /// A 12-byte opaque record, present when the archive's flags ask for it.
    pub unknown1: Option<[u8; 12]>,
    /// The stored name's bytes, without the terminating zero.
    pub name: Option<Vec<u8>>,
    /// The entry's identifier: the archive's first identifier plus `index`.
    pub id: u32,
    /// The entry's data.
    pub data: Vec<u8>,
}

/// What `String::from_utf8_lossy` gives for `b`.
pub uninterp spec fn utf8_lossy(b: Seq<u8>) -> Seq<char>;

/// Relies on `String::from_utf8_lossy`: valid UTF-8 is decoded as it stands.
#[verifier::external_body]
fn lossy_string(b: &[u8]) -> (r: String)
    ensures
        r@ == utf8_lossy(b@),
        valid_utf8(b@) ==> r@ == decode_utf8(b@),
{
    String::from_utf8_lossy(b).into_owned()
}

/// The decimal digits of `n`, most significant first.
pub open spec fn decimal(n: nat) -> Seq<char>
    decreases n,
{
    if n < 10 {
        seq![(n + 48) as char]
    } else {
        decimal(n / 10).push(((n % 10) + 48) as char)
    }
}

/// The one-character string of decimal digit `d`.
fn digit_str(d: u32) -> (r: &'static str)
    requires
        d < 10,
    ensures
        r@ == seq![(d + 48) as char],
{
    proof {
        reveal_strlit("0");
        reveal_strlit("1");
        reveal_strlit("2");
        reveal_strlit("3");
        reveal_strlit("4");
        reveal_strlit("5");
        reveal_strlit("6");
        reveal_strlit("7");
        reveal_strlit("8");
        reveal_strlit("9");
    }
    match d {
        0 => "0",
        1 => "1",
        2 => "2",
        3 => "3",
        4 => "4",
        5 => "5",
        6 => "6",
        7 => "7",
        8 => "8",
        _ => "9",
    }
}

/// The decimal digits of `v`, most significant first.
fn decimal_string(v: u32) -> (r: String)
    ensures
        r@ == decimal(v as nat),
    decreases v,
{
    if v < 10 {
        String::from_str(digit_str(v))
    } else {
        let mut r = decimal_string(v / 10);
        r.append(digit_str(v % 10));
        r
    }
}

impl Entry {
    /// The entry's name, decoded as UTF-8 with invalid sequences replaced.
    pub fn name(&self) -> (r: Option<String>)
        ensures
            r.is_some() == self.name.is_some(),
            r.is_some() ==> r.unwrap()@ == utf8_lossy(self.name.unwrap()@),
    {
        match &self.name {
            Some(n) => Some(lossy_string(n.as_slice())),
            None => None,
        }
    }

    pub fn index(&self) -> (r: usize)
        ensures
            r == self.index,
    {
        self.index
    }

    pub fn id(&self) -> (r: u32)
        ensures
            r == self.id,
    {
        self.id
    }

    /// The size of the entry's data in bytes.
    pub fn len(&self) -> (r: usize)
        ensures
            r == self.length,
    {
        self.length as usize
    }

    pub fn is_empty(&self) -> (r: bool)
        ensures
            r == (self.length == 0),
    {
        self.length == 0
    }

    /// The entry's raw data.
    pub fn as_bytes(&self) -> (r: &Vec<u8>)
        ensures
            r@ == self.data@,
    {
        &self.data
    }

    /// The entry's data with the OGGPAK wrapper, if any, taken off.
    pub fn cloned_bytes_fixed(&self) -> (r: Vec<u8>)
        ensures
            entry_type_of(self.data@) == EntryType::OGGPAK && self.data@.len() >= 15 ==> r@
                == self.data@.subrange(15, self.data@.len() as int),
            !(entry_type_of(self.data@) == EntryType::OGGPAK && self.data@.len() >= 15) ==> r@
                == self.data@,
    {
        let t = self.file_type();
        if t == EntryType::OGGPAK && self.data.len() >= 15 {
            crate::bytes::copy_range(self.data.as_slice(), 15, self.data.len() - 15)
        } else {
            crate::bytes::copy_range(self.data.as_slice(), 0, self.data.len())
        }
    }

    /// The name to show for the entry: its name, or else its id in decimal,
    /// followed by the extension of its file type.
    pub fn display_name(&self) -> (r: String)
        ensures
            self.name.is_some() ==> r@ == utf8_lossy(self.name.unwrap()@) + extension_of(
                entry_type_of(self.data@),
            ),
            self.name.is_none() ==> r@ == decimal(self.id as nat) + extension_of(
                entry_type_of(self.data@),
            ),
    {
        let base = match self.name() {
            Some(n) => n,
            None => decimal_string(self.id),
        };
        let t = self.file_type();
        base.concat(t.extension())
    }

    /// The kind of data the entry holds, judged by its first bytes.
    pub fn file_type(&self) -> (r: EntryType)
        ensures
            r == entry_type_of(self.data@),
    {
        let d = self.data.as_slice();
        let n = d.len();
        if n >= 3 && d[0] == 0x43u8 && d[1] == 0x5Au8 {
            if d[2] == 0x30u8 {
                EntryType::CZ0
            } else if d[2] == 0x31u8 {
                EntryType::CZ1
            } else if d[2] == 0x32u8 {
                EntryType::CZ2
            } else if d[2] == 0x33u8 {
                EntryType::CZ3
            } else if d[2] == 0x34u8 {
                EntryType::CZ4
            } else if d[2] == 0x35u8 {
                EntryType::CZ5
            } else {
                EntryType::Unknown
            }
        } else if n >= 3 && d[0] == 0x4Du8 && d[1] == 0x56u8 && d[2] == 0x54u8 {
            assert(d@.subrange(0, 3) =~= seq![0x4Du8, 0x56u8, 0x54u8]);
            EntryType::MVT
        } else if n >= 4 && d[0] == 0x52u8 && d[1] == 0x49u8 && d[2] == 0x46u8 && d[3] == 0x46u8 {
            assert(d@.subrange(0, 4) =~= seq![0x52u8, 0x49u8, 0x46u8, 0x46u8]);
            EntryType::WAV
        } else if n >= 4 && d[0] == 0x4Fu8 && d[1] == 0x67u8 && d[2] == 0x67u8 && d[3] == 0x53u8 {
            assert(d@.subrange(0, 4) =~= seq![0x4Fu8, 0x67u8, 0x67u8, 0x53u8]);
            EntryType::OGG
        } else if n >= 6 && d[0] == 0x4Fu8 && d[1] == 0x47u8 && d[2] == 0x47u8 && d[3] == 0x50u8
            && d[4] == 0x41u8 && d[5] == 0x4Bu8 {
            assert(d@.subrange(0, 6) =~= seq![0x4Fu8, 0x47u8, 0x47u8, 0x50u8, 0x41u8, 0x4Bu8]);
            EntryType::OGGPAK
        } else {
            proof {
                if n >= 3 {
                    assert(d@.subrange(0, 3)[0] == d[0]);
                    assert(d@.subrange(0, 3)[1] == d[1]);
                    assert(d@.subrange(0, 3)[2] == d[2]);
                }
                if n >= 4 {
                    assert(d@.subrange(0, 4)[0] == d[0]);
                    assert(d@.subrange(0, 4)[1] == d[1]);
                    assert(d@.subrange(0, 4)[2] == d[2]);
                    assert(d@.subrange(0, 4)[3] == d[3]);
                }
                if n >= 6 {
                    assert(d@.subrange(0, 6)[0] == d[0]);
                    assert(d@.subrange(0, 6)[1] == d[1]);
                    assert(d@.subrange(0, 6)[2] == d[2]);
                    assert(d@.subrange(0, 6)[3] == d[3]);
                    assert(d@.subrange(0, 6)[4] == d[4]);
                    assert(d@.subrange(0, 6)[5] == d[5]);
                }
            }
            EntryType::Unknown
        }
    }
}

} // verus!
