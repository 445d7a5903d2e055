//! PAK archives: decoding, encoding and in-place replacement of entries.

use vstd::prelude::*;
use vstd::string::StringSliceAdditionalSpecFns;
use vstd::utf8::encode_utf8;
use crate::bytes::{copy_range, push_all, push_u32, read_u32, u32_at, u32_bytes};
use crate::pak_entry::Entry;
use crate::pak_header::{flag_blobs, flag_names, header_bytes, Header, PakFlags};

verus! {

/// An error associated with a PAK archive.
#[derive(Debug, Clone, PartialEq, Eq)]
pub enum PakError {
    /// The input ended before the data that the archive declares.
    IoError,
    /// A count of files did not match.
    FileCountMismatch(usize, usize),
    /// The header's layout is inconsistent.
    HeaderError,
    /// No entry has the given index, id or name.
    IndexError,
}

/// A full PAK archive: its header, the opaque sections around its tables,
/// and its entries.
#[derive(Clone, Debug)]
pub struct Pak {
    /// The subdirectory name's bytes, without the terminating zero.
    pub subdirectory: Option<Vec<u8>>,
    /// Where the archive came from; an identifier only.
    pub path: String,
    pub header: Header,
    /// Opaque words between the header and the offset table.
    pub unknown_pre_data: Vec<u32>,
    /// Opaque bytes between the tables and the entry region.
    pub unknown_post_header: Vec<u8>,
    pub entries: Vec<Entry>,
}

/// The number of blocks of `bs` bytes that `len` bytes take up.
pub open spec fn blocks_for(len: int, bs: int) -> int {
    (len + bs - 1) / bs
}

/// The zero bytes that follow `len` bytes up to the next block boundary.
pub open spec fn pad_len(len: int, bs: int) -> int {
    (bs - len % bs) % bs
}

/// The identifier of the entry at `i` when the first is `start`, modulo 2^32.
pub open spec fn id_for(start: u32, i: int) -> u32 {
    ((start as int + i) % 0x1_0000_0000) as u32
}

/// Whether `b` holds no zero byte.
pub open spec fn no_nul(b: Seq<u8>) -> bool {
    forall|k: int| 0 <= k < b.len() ==> b[k] != 0
}

/// The header at the start of `s`.
pub open spec fn header_at(s: Seq<u8>) -> Header {
    Header {
        data_offset: u32_at(s, 0),
        entry_count: u32_at(s, 4),
        id_start: u32_at(s, 8),
        block_size: u32_at(s, 12),
        subdir_offset: u32_at(s, 16),
        unknown2: u32_at(s, 20),
        unknown3: u32_at(s, 24),
        unknown4: u32_at(s, 28),
        flags: PakFlags(u32_at(s, 32)),
    }
}

/// The bytes of a sequence of words.
pub open spec fn words_bytes(w: Seq<u32>) -> Seq<u8>
    decreases w.len(),
{
    if w.len() == 0 {
        seq![]
    } else {
        words_bytes(w.drop_last()) + u32_bytes(w.last())
    }
}

/// The bytes of each entry, by `f`, one after another.
pub open spec fn entries_bytes(es: Seq<Entry>, f: spec_fn(Entry) -> Seq<u8>) -> Seq<u8>
    decreases es.len(),
{
    if es.len() == 0 {
        seq![]
    } else {
        entries_bytes(es.drop_last(), f) + f(es.last())
    }
}

/// An entry's record in the offset table.
pub open spec fn table_record(e: Entry) -> Seq<u8> {
    u32_bytes(e.offset) + u32_bytes(e.length)
}

/// An entry's opaque record, when it has one.
pub open spec fn blob_record(e: Entry) -> Seq<u8> {
    match e.unknown1 {
        Some(b) => b@,
        None => seq![],
    }
}

/// A zero-terminated string.
pub open spec fn cstring(b: Seq<u8>) -> Seq<u8> {
    b.push(0u8)
}

/// An entry's record in the name table, when it has a name.
pub open spec fn name_record(e: Entry) -> Seq<u8> {
    match e.name {
        Some(n) => cstring(n@),
        None => seq![],
    }
}

/// An entry's data followed by its padding to a block boundary.
pub open spec fn data_record(e: Entry, bs: int) -> Seq<u8> {
    e.data@ + Seq::new(pad_len(e.data@.len() as int, bs) as nat, |k: int| 0u8)
}

/// The name table: the subdirectory, if any, then each entry's name.
pub open spec fn names_bytes(p: Pak) -> Seq<u8> {
    let dir = match p.subdirectory {
        Some(d) => cstring(d@),
        None => seq![],
    };
    dir + entries_bytes(p.entries@, |e: Entry| name_record(e))
}

/// The bytes of an archive in file order.
pub open spec fn pak_bytes(p: Pak) -> Seq<u8> {
    pak_prefix(p) + entries_bytes(p.entries@, |e: Entry| data_record(e, p.header.block_size as int))
}

/// The bytes of an archive before its entry region.
pub open spec fn pak_prefix(p: Pak) -> Seq<u8> {
    header_bytes(p.header) + words_bytes(p.unknown_pre_data@) + entries_bytes(
        p.entries@,
        |e: Entry| table_record(e),
    ) + (if flag_blobs(p.header.flags.0) {
        entries_bytes(p.entries@, |e: Entry| blob_record(e))
    } else {
        seq![]
    }) + (if flag_names(p.header.flags.0) {
        names_bytes(p)
    } else {
        seq![]
    }) + p.unknown_post_header@
}

/// The offset that entry `j` gets when entry `i` takes `new_len` bytes
/// and every later entry follows its predecessor's last block.
pub open spec fn chained_offset(es: Seq<Entry>, i: int, new_len: int, bs: int, j: int) -> int
    decreases j - i,
{
    if j <= i {
        es[i].offset as int
    } else {
        let prev_len = if j - 1 == i {
            new_len
        } else {
            es[j - 1].length as int
        };
        chained_offset(es, i, new_len, bs, j - 1) + blocks_for(prev_len, bs)
    }
}

/// Whether every offset that a replacement of entry `i` computes fits in 32 bits.
pub open spec fn chain_fits(es: Seq<Entry>, i: int, new_len: int, bs: int) -> bool {
    forall|j: int| i < j < es.len() ==> chained_offset(es, i, new_len, bs, j) <= u32::MAX
}

/// What `replace` returns: `IndexError` for an index past the entries,
/// `HeaderError` when a moved offset would not fit in 32 bits, else `Ok`.
pub open spec fn replace_outcome(p: Pak, index: int, new_len: int) -> Result<(), PakError> {
    if index < 0 || index >= p.entries@.len() {
        Err(PakError::IndexError)
    } else if !chain_fits(p.entries@, index, new_len, p.header.block_size as int) {
        Err(PakError::HeaderError)
    } else {
        Ok(())
    }
}

/// Whether `n` is `p` with entry `index` holding `bytes` and every later
/// entry moved to the block after its predecessor's data.
pub open spec fn replaced(p: Pak, n: Pak, index: int, bytes: Seq<u8>) -> bool {
    let es = n.entries@;
    let bs = n.header.block_size as int;
    &&& n.wf()
    &&& n.header == p.header
    &&& n.subdirectory == p.subdirectory
    &&& n.unknown_pre_data == p.unknown_pre_data
    &&& n.unknown_post_header == p.unknown_post_header
    &&& n.path == p.path
    &&& es.len() == p.entries@.len()
    &&& es[index].data@ == bytes
    &&& es[index].length == bytes.len()
    &&& es[index].offset == p.entries@[index].offset
    &&& es[index].name == p.entries@[index].name
    &&& es[index].unknown1 == p.entries@[index].unknown1
    &&& es[index].index == p.entries@[index].index
    &&& es[index].id == p.entries@[index].id
    &&& forall|j: int| 0 <= j < index ==> es[j] == p.entries@[j]
    &&& forall|j: int|
        #![trigger es[j]]
        index < j < es.len() ==> {
            &&& es[j].offset as int == es[j - 1].offset + blocks_for(es[j - 1].length as int, bs)
            &&& es[j].data == p.entries@[j].data
            &&& es[j].length == p.entries@[j].length
            &&& es[j].name == p.entries@[j].name
            &&& es[j].unknown1 == p.entries@[j].unknown1
            &&& es[j].index == p.entries@[j].index
            &&& es[j].id == p.entries@[j].id
        }
}

/// The index of the first entry whose stored name bytes are `b`.
pub open spec fn first_named(es: Seq<Entry>, b: Seq<u8>) -> int {
    choose|k: int|
        0 <= k < es.len() && name_is(es[k], b) && forall|m: int| 0 <= m < k ==> !name_is(es[m], b)
}

proof fn lemma_chain_step(es: Seq<Entry>, i: int, new_len: int, bs: int, j: int)
    requires
        j > i,
    ensures
        chained_offset(es, i, new_len, bs, j) == chained_offset(es, i, new_len, bs, j - 1)
            + blocks_for(if j - 1 == i { new_len } else { es[j - 1].length as int }, bs),
{
}

impl Pak {
    /// The archive's internal consistency: one entry per declared entry,
    /// numbered in order, with optional records exactly when the flags ask
    /// for them, and names free of zero bytes.
    pub open spec fn wf(&self) -> bool {
        &&& self.entries@.len() == self.header.entry_count
        &&& self.header.block_size > 0
        &&& (self.subdirectory.is_some() ==> flag_names(self.header.flags.0) && no_nul(
            self.subdirectory.unwrap()@,
        ))
        &&& forall|i: int|
            #![trigger self.entries@[i]]
            0 <= i < self.entries@.len() ==> {
                let e = self.entries@[i];
                &&& e.index == i
                &&& e.id == id_for(self.header.id_start, i)
                &&& e.length == e.data@.len()
                &&& e.unknown1.is_some() == flag_blobs(self.header.flags.0)
                &&& e.name.is_some() == flag_names(self.header.flags.0)
                &&& (e.name.is_some() ==> no_nul(e.name.unwrap()@))
            }
    }

    /// Replaces the data of entry `index` and moves every later entry so
    /// that it starts at the block after its predecessor's data.
    pub fn replace(&mut self, index: usize, replacement_bytes: &[u8]) -> (r: Result<(), PakError>)
        requires
            old(self).wf(),
            replacement_bytes@.len() <= u32::MAX,
        ensures
            r == replace_outcome(*old(self), index as int, replacement_bytes@.len() as int),
            r is Err ==> *final(self) == *old(self),
            r is Ok ==> replaced(*old(self), *final(self), index as int, replacement_bytes@),
    {
        let n = self.entries.len();
        if index >= n {
            return Err(PakError::IndexError);
        }
        let bs = self.header.block_size as u64;
        let new_len = replacement_bytes.len() as u64;
        let ghost es = self.entries@;
        let ghost i = index as int;
        let ghost nl = new_len as int;
        let ghost b = bs as int;
        // check that every moved offset fits before changing anything
        assert(chained_offset(es, i, nl, b, i) == es[i].offset);
        assert(chained_offset(es, i, nl, b, i + 1) == es[i].offset + blocks_for(nl, b));
        let mut next: u64 = self.entries[index].offset as u64 + (new_len + bs - 1) / bs;
        let mut j: usize = index + 1;
        while j < n
            invariant
                self.entries@ == es,
                *self == *old(self),
                es == old(self).entries@,
                b == old(self).header.block_size,
                n == es.len(),
                index < j <= n,
                i == index,
                bs == b,
                0 < b <= u32::MAX,
                nl == new_len,
                nl == replacement_bytes@.len(),
                new_len <= u32::MAX,
                next as int == chained_offset(es, i, nl, b, j as int),
                forall|k: int| i < k < j ==> chained_offset(es, i, nl, b, k) <= u32::MAX,
            decreases n - j,
        {
            if next > u32::MAX as u64 {
                assert(chained_offset(es, i, nl, b, j as int) > u32::MAX);
                assert(!chain_fits(es, i, nl, b));
                return Err(PakError::HeaderError);
            }
            let len_j = self.entries[j].length as u64;
            assert((len_j as int + bs as int - 1) / (bs as int) <= len_j as int + bs as int - 1) by (nonlinear_arith)
                requires
                    bs > 0,
                    len_j + bs - 1 >= 0,
            ;
            proof {
                lemma_chain_step(es, i, nl, b, j + 1);
            }
            next = next + (len_j + bs - 1) / bs;
            j += 1;
        }
        assert(chain_fits(es, i, nl, b));
        let mut data: Vec<u8> = Vec::new();
        push_all(&mut data, replacement_bytes);
        self.entries[index].data = data;
        self.entries[index].length = new_len as u32;
        let mut next: u64 = self.entries[index].offset as u64 + (new_len + bs - 1) / bs;
        let mut j: usize = index + 1;
        while j < n
            invariant
                self.entries@.len() == n,
                n == es.len(),
                index < j <= n,
                i == index,
                bs == b,
                0 < b <= u32::MAX,
                nl == new_len,
                chain_fits(es, i, nl, b),
                self.header == old(self).header,
                self.subdirectory == old(self).subdirectory,
                self.unknown_pre_data == old(self).unknown_pre_data,
                self.unknown_post_header == old(self).unknown_post_header,
                self.path == old(self).path,
                es == old(self).entries@,
                old(self).wf(),
                next as int == chained_offset(es, i, nl, b, j as int),
                self.entries@[i].data@ == replacement_bytes@,
                self.entries@[i].length == new_len,
                self.entries@[i].offset == es[i].offset,
                self.entries@[i].name == es[i].name,
                self.entries@[i].unknown1 == es[i].unknown1,
                self.entries@[i].index == es[i].index,
                self.entries@[i].id == es[i].id,
                forall|k: int| 0 <= k < i ==> self.entries@[k] == es[k],
                forall|k: int|
                    #![trigger self.entries@[k]]
                    i < k < n ==> {
                        &&& self.entries@[k].data == es[k].data
                        &&& self.entries@[k].length == es[k].length
                        &&& self.entries@[k].name == es[k].name
                        &&& self.entries@[k].unknown1 == es[k].unknown1
                        &&& self.entries@[k].index == es[k].index
                        &&& self.entries@[k].id == es[k].id
                    },
                forall|k: int|
                    i < k < j ==> self.entries@[k].offset as int == chained_offset(
                        es,
                        i,
                        nl,
                        b,
                        k,
                    ),
            decreases n - j,
        {
            assert(chained_offset(es, i, nl, b, j as int) <= u32::MAX);
            let e = &mut self.entries[j];
            e.offset = next as u32;
            let len_j = self.entries[j].length as u64;
            assert((len_j as int + bs as int - 1) / (bs as int) <= len_j as int + bs as int - 1) by (nonlinear_arith)
                requires
                    bs > 0,
                    len_j + bs - 1 >= 0,
            ;
            proof {
                lemma_chain_step(es, i, nl, b, j + 1);
            }
            next = next + (len_j + bs - 1) / bs;
            j += 1;
        }
        proof {
            let es2 = self.entries@;
            assert forall|k: int| #![trigger es2[k]] i < k < es2.len() implies es2[k].offset as int
                == es2[k - 1].offset + blocks_for(es2[k - 1].length as int, b) by {
                lemma_chain_step(es, i, nl, b, k);
                if k - 1 == i {
                    assert(chained_offset(es, i, nl, b, i) == es[i].offset);
                }
            }
        }
        Ok(())
    }
}


proof fn lemma_entries_bytes_push(es: Seq<Entry>, e: Entry, f: spec_fn(Entry) -> Seq<u8>)
    ensures
        entries_bytes(es.push(e), f) == entries_bytes(es, f) + f(e),
{
    assert(es.push(e).drop_last() =~= es);
}

proof fn lemma_entries_bytes_take(es: Seq<Entry>, k: int, f: spec_fn(Entry) -> Seq<u8>)
    requires
        0 <= k < es.len(),
    ensures
        entries_bytes(es.take(k + 1), f) == entries_bytes(es.take(k), f) + f(es[k]),
{
    assert(es.take(k + 1).drop_last() =~= es.take(k));
}

proof fn lemma_entries_bytes_congruent(
    es1: Seq<Entry>,
    es2: Seq<Entry>,
    f: spec_fn(Entry) -> Seq<u8>,
)
    requires
        es1.len() == es2.len(),
        forall|k: int| 0 <= k < es1.len() ==> f(es1[k]) == f(es2[k]),
    ensures
        entries_bytes(es1, f) == entries_bytes(es2, f),
    decreases es1.len(),
{
    if es1.len() > 0 {
        lemma_entries_bytes_congruent(es1.drop_last(), es2.drop_last(), f);
    }
}

proof fn lemma_words_bytes_push(w: Seq<u32>, v: u32)
    ensures
        words_bytes(w.push(v)) == words_bytes(w) + u32_bytes(v),
{
    assert(w.push(v).drop_last() =~= w);
}

proof fn lemma_word_at(s: Seq<u8>, pos: int)
    requires
        0 <= pos,
        pos + 4 <= s.len(),
    ensures
        s.subrange(pos, pos + 4) == u32_bytes(u32_at(s, pos)),
{
    crate::bytes::lemma_u32_bytes_of_read(s[pos], s[pos + 1], s[pos + 2], s[pos + 3]);
    assert(s.subrange(pos, pos + 4) =~= seq![s[pos], s[pos + 1], s[pos + 2], s[pos + 3]]);
}

proof fn lemma_subrange_join(s: Seq<u8>, a: int, b: int, c: int)
    requires
        0 <= a <= b <= c <= s.len(),
    ensures
        s.subrange(a, c) == s.subrange(a, b) + s.subrange(b, c),
{
    assert(s.subrange(a, c) =~= s.subrange(a, b) + s.subrange(b, c));
}

/// Reads a zero-terminated string at `pos`: the bytes before the first zero
/// and the position after that zero; `None` when no zero follows.
pub fn read_cstring(input: &[u8], pos: usize) -> (r: Option<(Vec<u8>, usize)>)
    requires
        pos <= input@.len(),
    ensures
        r is None <==> forall|k: int| pos <= k < input@.len() ==> input@[k] != 0,
        r matches Some((b, p)) ==> {
            &&& pos < p <= input@.len()
            &&& input@[p - 1] == 0
            &&& b@ == input@.subrange(pos as int, p - 1)
            &&& no_nul(b@)
            &&& input@.subrange(pos as int, p as int) == cstring(b@)
        },
{
    let n = input.len();
    let mut k: usize = pos;
    while k < n && input[k] != 0
        invariant
            pos <= k <= n,
            n == input@.len(),
            forall|m: int| pos <= m < k ==> input@[m] != 0,
        decreases n - k,
    {
        k += 1;
    }
    if k < n {
        let b = copy_range(input, pos, k - pos);
        assert(input@.subrange(pos as int, k + 1) =~= cstring(b@));
        Some((b, k + 1))
    } else {
        None
    }
}

/// Reads the pre-data words from `pos` up to the first word equal to
/// `sentinel`, which is not consumed, as long as they start before `end`.
fn read_pre_data(input: &[u8], pos: usize, end: usize, sentinel: u32) -> (r: Result<
    (Vec<u32>, usize),
    PakError,
>)
    requires
        pos <= input@.len(),
    ensures
        r matches Ok((w, p)) ==> {
            &&& p == pos + 4 * w@.len()
            &&& p < end
            &&& p + 4 <= input@.len()
            &&& u32_at(input@, p as int) == sentinel
            &&& input@.subrange(pos as int, p as int) == words_bytes(w@)
            &&& forall|k: int| 0 <= k < w@.len() ==> w@[k] != sentinel
        },
        r matches Err(e) ==> e == PakError::IoError || e == PakError::HeaderError,
        forall|j: int|
            #[trigger] sentinel_found(input@, pos as int, end as int, sentinel, j) ==> (r matches Ok(
                (w, p),
            ) && p == pos + 4 * j),
        no_sentinel(input@, pos as int, end as int, sentinel) ==> r == Err::<
            (Vec<u32>, usize),
            PakError,
        >(PakError::HeaderError),
{
    let n = input.len();
    let mut p: usize = pos;
    let mut w: Vec<u32> = Vec::new();
    while p < end
        invariant
            pos <= p <= n,
            n == input@.len(),
            p == pos + 4 * w@.len(),
            input@.subrange(pos as int, p as int) == words_bytes(w@),
            forall|k: int| 0 <= k < w@.len() ==> w@[k] != sentinel,
            forall|k: int| 0 <= k < w@.len() ==> u32_at(input@, pos + 4 * k) == #[trigger] w@[k],
            forall|j: int|
                #[trigger] sentinel_found(input@, pos as int, end as int, sentinel, j) ==> p <= pos
                    + 4 * j,
        decreases n - p,
    {
        proof {
            if no_sentinel(input@, pos as int, end as int, sentinel) {
                assert(u32_at(input@, pos + 4 * w@.len()) != sentinel);
            }
            assert forall|j: int| #[trigger]
                sentinel_found(input@, pos as int, end as int, sentinel, j) implies p + 4 <= n && (
            p < pos + 4 * j ==> u32_at(input@, p as int) != sentinel) by {
                if p < pos + 4 * j {
                    let k = w@.len() as int;
                    assert(k < j);
                    assert(u32_at(input@, pos + 4 * k) != sentinel);
                }
            }
        }
        if n - p < 4 {
            return Err(PakError::IoError);
        }
        let v = read_u32(input, p);
        if v == sentinel {
            return Ok((w, p));
        }
        proof {
            lemma_word_at(input@, p as int);
            lemma_words_bytes_push(w@, v);
            lemma_subrange_join(input@, pos as int, p as int, p + 4);
        }
        w.push(v);
        p += 4;
    }
    Err(PakError::HeaderError)
}

/// Whether the word at `pos + 4 * j` is the first word equal to `sentinel`
/// from `pos` on, starting before `end` and lying within `s`.
pub open spec fn sentinel_found(s: Seq<u8>, pos: int, end: int, sentinel: u32, j: int) -> bool {
    &&& 0 <= j
    &&& pos + 4 * j < end
    &&& pos + 4 * j + 4 <= s.len()
    &&& u32_at(s, pos + 4 * j) == sentinel
    &&& forall|k: int| 0 <= k < j ==> #[trigger] u32_at(s, pos + 4 * k) != sentinel
}

/// Whether every word from `pos` that starts before `end` lies within `s`
/// and differs from `sentinel`.
pub open spec fn no_sentinel(s: Seq<u8>, pos: int, end: int, sentinel: u32) -> bool {
    forall|j: int|
        0 <= j && pos + 4 * j < end ==> pos + 4 * j + 4 <= s.len() && #[trigger] u32_at(
            s,
            pos + 4 * j,
        ) != sentinel
}



/// What a successful decode of `s` gives: a well-formed archive whose
/// header is read from the start of `s`, whose bytes before the entry
/// region are `s`'s, whose pre-data stops at the first word, before the
/// entry region, equal to the first entry's block offset, which has a
/// subdirectory exactly when it has names and a non-zero subdirectory
/// offset, and whose entries hold the bytes at their block offsets.
#[verifier::opaque]
pub open spec fn decodes_to(s: Seq<u8>, p: Pak) -> bool {
    let bs = p.header.block_size as int;
    let first = p.header.data_offset / p.header.block_size;
    &&& p.wf()
    &&& p.header == header_at(s)
    &&& p.header.data_offset <= s.len()
    &&& s.subrange(0, p.header.data_offset as int) == pak_prefix(p)
    &&& p.subdirectory.is_some() == (flag_names(p.header.flags.0) && p.header.subdir_offset != 0)
    &&& 36 + 4 * p.unknown_pre_data@.len() < p.header.data_offset
    &&& 36 + 4 * p.unknown_pre_data@.len() + 4 <= s.len()
    &&& u32_at(s, 36 + 4 * p.unknown_pre_data@.len() as int) == first
    &&& forall|k: int| 0 <= k < p.unknown_pre_data@.len() ==> p.unknown_pre_data@[k] != first
    &&& forall|i: int|
        #![trigger p.entries@[i]]
        0 <= i < p.entries@.len() ==> {
            let e = p.entries@[i];
            &&& e.offset * bs + e.length <= s.len()
            &&& e.data@ == s.subrange(e.offset * bs, e.offset * bs + e.length)
        }
}

/// Whether two entries agree but for their opaque record.
pub open spec fn same_but_blob(a: Entry, b: Entry) -> bool {
    a.index == b.index && a.id == b.id && a.offset == b.offset && a.length == b.length && a.name
        == b.name && a.data == b.data
}

/// Whether two entries agree but for their name.
pub open spec fn same_but_name(a: Entry, b: Entry) -> bool {
    a.index == b.index && a.id == b.id && a.offset == b.offset && a.length == b.length
        && a.unknown1 == b.unknown1 && a.data == b.data
}

/// Whether two entries agree but for their data.
pub open spec fn same_but_data(a: Entry, b: Entry) -> bool {
    a.index == b.index && a.id == b.id && a.offset == b.offset && a.length == b.length
        && a.unknown1 == b.unknown1 && a.name == b.name
}

/// Reads the offset table of `count` entries at `pos`.
fn read_table(input: &[u8], pos: usize, count: usize, id_start: u32) -> (r: Result<
    (Vec<Entry>, usize),
    PakError,
>)
    requires
        pos <= input@.len(),
        count <= u32::MAX,
    ensures
        r matches Ok((es, p)) ==> {
            &&& p == pos + 8 * count
            &&& p <= input@.len()
            &&& es@.len() == count
            &&& input@.subrange(pos as int, p as int) == entries_bytes(
                es@,
                |e: Entry| table_record(e),
            )
            &&& forall|k: int|
                #![trigger es@[k]]
                0 <= k < count ==> {
                    let e = es@[k];
                    &&& e.index == k
                    &&& e.id == id_for(id_start, k)
                    &&& e.unknown1.is_none()
                    &&& e.name.is_none()
                }
        },
        r matches Err(e) ==> e == PakError::IoError,
        pos + 8 * count <= input@.len() ==> r is Ok,
{
    let n = input.len();
    let mut p = pos;
    let mut entries: Vec<Entry> = Vec::new();
    let mut i: usize = 0;
    while i < count
        invariant
            n == input@.len(),
            count <= u32::MAX,
            pos <= p <= n,
            p == pos + 8 * i,
            i <= count,
            entries@.len() == i,
            input@.subrange(pos as int, p as int) == entries_bytes(
                entries@,
                |e: Entry| table_record(e),
            ),
            forall|k: int|
                #![trigger entries@[k]]
                0 <= k < i ==> {
                    let e = entries@[k];
                    &&& e.index == k
                    &&& e.id == id_for(id_start, k)
                    &&& e.unknown1.is_none()
                    &&& e.name.is_none()
                },
        decreases count - i,
    {
        if n - p < 8 {
            return Err(PakError::IoError);
        }
        let offset = read_u32(input, p);
        let length = read_u32(input, p + 4);
        let e = Entry {
            index: i,
            offset,
            length,
            unknown1: None,
            name: None,
            id: id_start.wrapping_add(i as u32),
            data: Vec::new(),
        };
        proof {
            lemma_word_at(input@, p as int);
            lemma_word_at(input@, p + 4);
            lemma_subrange_join(input@, p as int, p + 4, p + 8);
            lemma_subrange_join(input@, pos as int, p as int, p + 8);
            lemma_entries_bytes_push(entries@, e, |e: Entry| table_record(e));
        }
        entries.push(e);
        p += 8;
        i += 1;
    }
    Ok((entries, p))
}

/// Reads one 12-byte opaque record per entry at `pos`.
fn read_blobs(input: &[u8], pos: usize, entries: &mut Vec<Entry>) -> (r: Result<usize, PakError>)
    requires
        pos <= input@.len(),
    ensures
        r matches Ok(p) ==> {
            &&& pos <= p <= input@.len()
            &&& input@.subrange(pos as int, p as int) == entries_bytes(
                final(entries)@,
                |e: Entry| blob_record(e),
            )
            &&& final(entries)@.len() == old(entries)@.len()
            &&& forall|k: int|
                #![trigger final(entries)@[k]]
                0 <= k < old(entries)@.len() ==> same_but_blob(final(entries)@[k], old(entries)@[k])
                    && final(entries)@[k].unknown1.is_some()
        },
        r matches Err(e) ==> e == PakError::IoError,
        pos + 12 * old(entries)@.len() <= input@.len() ==> r is Ok,
        r matches Ok(p) ==> p == pos + 12 * old(entries)@.len(),
{
    let n = input.len();
    let count = entries.len();
    let ghost es0 = entries@;
    let mut p = pos;
    let mut i: usize = 0;
    while i < count
        invariant
            n == input@.len(),
            count == es0.len(),
            entries@.len() == count,
            pos <= p <= n,
            p == pos + 12 * i,
            i <= count,
            es0 == old(entries)@,
            input@.subrange(pos as int, p as int) == entries_bytes(
                entries@.take(i as int),
                |e: Entry| blob_record(e),
            ),
            forall|k: int|
                #![trigger entries@[k]]
                0 <= k < count ==> same_but_blob(entries@[k], es0[k]) && (k < i
                    ==> entries@[k].unknown1.is_some()),
        decreases count - i,
    {
        if n - p < 12 {
            return Err(PakError::IoError);
        }
        let b: [u8; 12] = [
            input[p],
            input[p + 1],
            input[p + 2],
            input[p + 3],
            input[p + 4],
            input[p + 5],
            input[p + 6],
            input[p + 7],
            input[p + 8],
            input[p + 9],
            input[p + 10],
            input[p + 11],
        ];
        let ghost before = entries@;
        let e = &mut entries[i];
        e.unknown1 = Some(b);
        proof {
            assert(b@ =~= input@.subrange(p as int, p + 12));
            lemma_subrange_join(input@, pos as int, p as int, p + 12);
            lemma_entries_bytes_take(entries@, i as int, |e: Entry| blob_record(e));
            lemma_entries_bytes_congruent(
                entries@.take(i as int),
                before.take(i as int),
                |e: Entry| blob_record(e),
            );
        }
        p += 12;
        i += 1;
    }
    assert(entries@.take(count as int) =~= entries@);
    Ok(p)
}

/// Reads one zero-terminated name per entry at `pos`.
fn read_names(input: &[u8], pos: usize, entries: &mut Vec<Entry>, Ghost(t): Ghost<Seq<Entry>>) -> (r: Result<usize, PakError>)
    requires
        pos <= input@.len(),
    ensures
        r matches Ok(p) ==> {
            &&& pos <= p <= input@.len()
            &&& input@.subrange(pos as int, p as int) == entries_bytes(
                final(entries)@,
                |e: Entry| name_record(e),
            )
            &&& final(entries)@.len() == old(entries)@.len()
            &&& forall|k: int|
                #![trigger final(entries)@[k]]
                0 <= k < old(entries)@.len() ==> same_but_name(final(entries)@[k], old(entries)@[k])
                    && final(entries)@[k].name.is_some() && no_nul(final(entries)@[k].name.unwrap()@)
        },
        r matches Err(e) ==> e == PakError::IoError,
        names_fit(input@, pos as int, t, old(entries)@.len() as int) ==> r == Ok::<usize, PakError>(
            (pos + entries_bytes(t, |e: Entry| name_record(e)).len()) as usize,
        ),
{
    let count = entries.len();
    let ghost es0 = entries@;
    let mut p = pos;
    let mut i: usize = 0;
    while i < count
        invariant
            count == es0.len(),
            entries@.len() == count,
            pos <= p <= input@.len(),
            i <= count,
            es0 == old(entries)@,
            input@.subrange(pos as int, p as int) == entries_bytes(
                entries@.take(i as int),
                |e: Entry| name_record(e),
            ),
            forall|k: int|
                #![trigger entries@[k]]
                0 <= k < count ==> same_but_name(entries@[k], es0[k]) && (k < i ==> entries@[
                    k
                ].name.is_some() && no_nul(entries@[k].name.unwrap()@)),
            names_fit(input@, pos as int, t, count as int) ==> p == pos + entries_bytes(
                t.take(i as int),
                |e: Entry| name_record(e),
            ).len(),
        decreases count - i,
    {
        proof {
            if names_fit(input@, pos as int, t, count as int) {
                lemma_name_at(input@, pos as int, t, i as int);
                let nmv = t[i as int].name.unwrap()@;
                let m = nmv.len() as int;
                assert(input@.subrange(p as int, p + m + 1)[m] == input@[p + m]);
                assert(cstring(nmv)[m] == 0);
                assert(input@[p + m] == 0);
            }
        }
        let (nm, q) = match read_cstring(input, p) {
            Some(x) => x,
            None => return Err(PakError::IoError),
        };
        let ghost before = entries@;
        let e = &mut entries[i];
        e.name = Some(nm);
        proof {
            lemma_subrange_join(input@, pos as int, p as int, q as int);
            lemma_entries_bytes_take(entries@, i as int, |e: Entry| name_record(e));
            lemma_entries_bytes_congruent(
                entries@.take(i as int),
                before.take(i as int),
                |e: Entry| name_record(e),
            );
        }
        proof {
            if names_fit(input@, pos as int, t, count as int) {
                lemma_name_at(input@, pos as int, t, i as int);
                let nmv = t[i as int].name.unwrap()@;
                let m = nmv.len() as int;
                assert(input@.subrange(p as int, p + m + 1)[m] == input@[p + m]);
                assert(input@[p + m] == 0);
                if q - 1 < p + m {
                    assert(input@.subrange(p as int, p + m + 1)[q - 1 - p] == input@[q - 1]);
                    assert(cstring(nmv)[q - 1 - p] == nmv[q - 1 - p]);
                } else if q - 1 > p + m {
                    assert(nm@[m] == input@[p + m]);
                }
                assert(q == p + m + 1);
                lemma_entries_bytes_take(t, i as int, |e: Entry| name_record(e));
            }
        }
        p = q;
        i += 1;
    }
    assert(entries@.take(count as int) =~= entries@);
    proof {
        if names_fit(input@, pos as int, t, count as int) {
            assert(t.take(count as int) =~= t);
        }
    }
    Ok(p)
}

/// Whether the bytes at `pos` are the names of `t`, one zero-terminated
/// string per entry, each name present and free of zero bytes.
pub open spec fn names_fit(s: Seq<u8>, pos: int, t: Seq<Entry>, count: int) -> bool {
    let nb = entries_bytes(t, |e: Entry| name_record(e));
    &&& t.len() == count
    &&& forall|k: int|
        0 <= k < t.len() ==> (#[trigger] t[k]).name.is_some() && no_nul(t[k].name.unwrap()@)
    &&& 0 <= pos
    &&& pos + nb.len() <= s.len()
    &&& s.subrange(pos, pos + nb.len()) == nb
}

proof fn lemma_entries_prefix(t: Seq<Entry>, k: int, f: spec_fn(Entry) -> Seq<u8>)
    requires
        0 <= k <= t.len(),
    ensures
        entries_bytes(t.take(k), f).len() <= entries_bytes(t, f).len(),
        entries_bytes(t, f).take(entries_bytes(t.take(k), f).len() as int) == entries_bytes(
            t.take(k),
            f,
        ),
    decreases t.len(),
{
    if k == t.len() {
        assert(t.take(k) =~= t);
        assert(entries_bytes(t, f).take(entries_bytes(t, f).len() as int) =~= entries_bytes(t, f));
    } else {
        let u = t.drop_last();
        lemma_entries_prefix(u, k, f);
        assert(u.take(k) =~= t.take(k));
        assert(entries_bytes(t, f) == entries_bytes(u, f) + f(t.last()));
        assert(entries_bytes(t, f).take(entries_bytes(t.take(k), f).len() as int) =~= entries_bytes(
            u,
            f,
        ).take(entries_bytes(t.take(k), f).len() as int));
    }
}

/// Entry `i`'s zero-terminated name stands right after the names before it.
proof fn lemma_name_at(s: Seq<u8>, pos: int, t: Seq<Entry>, i: int)
    requires
        names_fit(s, pos, t, t.len() as int),
        0 <= i < t.len(),
    ensures
        ({
            let p = pos + entries_bytes(t.take(i), |e: Entry| name_record(e)).len();
            let nmv = t[i].name.unwrap()@;
            &&& p + nmv.len() + 1 <= s.len()
            &&& s.subrange(p, p + nmv.len() + 1) == cstring(nmv)
            &&& no_nul(nmv)
        }),
{
    let f = |e: Entry| name_record(e);
    let nb = entries_bytes(t, f);
    lemma_entries_bytes_take(t, i, f);
    lemma_entries_prefix(t, i + 1, f);
    let a = entries_bytes(t.take(i), f);
    let b = entries_bytes(t.take(i + 1), f);
    assert(t[i].name.is_some());
    let nmv = t[i].name.unwrap()@;
    assert(b == a + cstring(nmv));
    let p = pos + a.len();
    assert(s.subrange(p, p + nmv.len() + 1) =~= b.subrange(a.len() as int, b.len() as int)) by {
        assert forall|m: int| 0 <= m < nmv.len() + 1 implies #[trigger] s[p + m] == b[a.len() + m] by {
            assert(s.subrange(pos, pos + nb.len())[a.len() + m] == nb[a.len() + m]);
            assert(nb.take(b.len() as int)[a.len() + m] == b[a.len() + m]);
        }
    }
    assert(b.subrange(a.len() as int, b.len() as int) =~= cstring(nmv));
}

/// Reads each entry's data from its block offset.
fn read_data(input: &[u8], bs: u32, entries: &mut Vec<Entry>) -> (r: Result<(), PakError>)
    ensures
        r is Ok ==> {
            &&& final(entries)@.len() == old(entries)@.len()
            &&& forall|k: int|
                #![trigger final(entries)@[k]]
                0 <= k < old(entries)@.len() ==> {
                    let e = final(entries)@[k];
                    &&& same_but_data(e, old(entries)@[k])
                    &&& e.offset * bs + e.length <= input@.len()
                    &&& e.data@ == input@.subrange(e.offset * bs, e.offset * bs + e.length)
                }
        },
        r matches Err(e) ==> e == PakError::IoError,
        (forall|k: int|
            #![trigger old(entries)@[k]]
            0 <= k < old(entries)@.len() ==> old(entries)@[k].offset * bs + old(entries)@[k].length
                <= input@.len()) ==> r is Ok,
{
    let n = input.len();
    let count = entries.len();
    let ghost es0 = entries@;
    let mut i: usize = 0;
    while i < count
        invariant
            n == input@.len(),
            count == es0.len(),
            entries@.len() == count,
            i <= count,
            es0 == old(entries)@,
            forall|k: int|
                #![trigger entries@[k]]
                0 <= k < count ==> {
                    let e = entries@[k];
                    &&& same_but_data(e, es0[k])
                    &&& (k < i ==> {
                        &&& e.offset * bs + e.length <= n
                        &&& e.data@ == input@.subrange(e.offset * bs, e.offset * bs + e.length)
                    })
                },
        decreases count - i,
    {
        let off32 = entries[i].offset;
        let len = entries[i].length as u64;
        assert(off32 as u64 * bs as u64 <= 0xFFFF_FFFE_0000_0001u64) by (nonlinear_arith)
            requires
                off32 <= u32::MAX,
                bs <= u32::MAX,
        ;
        let start = off32 as u64 * bs as u64;
        if start + len > n as u64 {
            return Err(PakError::IoError);
        }
        let d = copy_range(input, start as usize, len as usize);
        let e = &mut entries[i];
        e.data = d;
        i += 1;
    }
    Ok(())
}

/// Reads the nine header words at the start of `input`.
fn read_header(input: &[u8]) -> (h: Header)
    requires
        input@.len() >= 36,
    ensures
        h == header_at(input@),
        input@.subrange(0, 36) == header_bytes(h),
{
    let header = Header {
        data_offset: read_u32(input, 0),
        entry_count: read_u32(input, 4),
        id_start: read_u32(input, 8),
        block_size: read_u32(input, 12),
        subdir_offset: read_u32(input, 16),
        unknown2: read_u32(input, 20),
        unknown3: read_u32(input, 24),
        unknown4: read_u32(input, 28),
        flags: PakFlags(read_u32(input, 32)),
    };
    proof {
        let s = input@;
        lemma_word_at(s, 0);
        lemma_word_at(s, 4);
        lemma_word_at(s, 8);
        lemma_word_at(s, 12);
        lemma_word_at(s, 16);
        lemma_word_at(s, 20);
        lemma_word_at(s, 24);
        lemma_word_at(s, 28);
        lemma_word_at(s, 32);
        assert(s.subrange(0, 36) =~= s.subrange(0, 4) + s.subrange(4, 8) + s.subrange(8, 12)
            + s.subrange(12, 16) + s.subrange(16, 20) + s.subrange(20, 24) + s.subrange(24, 28)
            + s.subrange(28, 32) + s.subrange(32, 36));
        assert(s.subrange(0, 4) == u32_bytes(u32_at(s, 0)));
        assert(s.subrange(4, 8) == u32_bytes(u32_at(s, 4)));
        assert(s.subrange(8, 12) == u32_bytes(u32_at(s, 8)));
        assert(s.subrange(12, 16) == u32_bytes(u32_at(s, 12)));
        assert(s.subrange(16, 20) == u32_bytes(u32_at(s, 16)));
        assert(s.subrange(20, 24) == u32_bytes(u32_at(s, 20)));
        assert(s.subrange(24, 28) == u32_bytes(u32_at(s, 24)));
        assert(s.subrange(28, 32) == u32_bytes(u32_at(s, 28)));
        assert(s.subrange(32, 36) == u32_bytes(u32_at(s, 32)));
        assert(s.subrange(0, 36) == header_bytes(header));
    }
    header
}

impl Pak {
    /// Decodes an archive from its bytes. `path` is kept as the archive's
    /// identifier.
    #[verifier::rlimit(100)]
    #[verifier::spinoff_prover]
    pub fn decode(input: &[u8], path: String) -> (r: Result<Pak, PakError>)
        ensures
            r matches Ok(p) ==> decodes_to(input@, p) && p.path@ == path@,
            (exists|p: Pak| decodes_to(input@, p)) ==> r is Ok,
            input@.len() < 36 ==> r == Err::<Pak, PakError>(PakError::IoError),
            input@.len() >= 36 && header_at(input@).block_size != 0 && no_sentinel(
                input@,
                36,
                header_at(input@).data_offset as int,
                header_at(input@).data_offset / header_at(input@).block_size,
            ) ==> r == Err::<Pak, PakError>(PakError::HeaderError),
            input@.len() >= 36 && header_at(input@).block_size == 0 ==> r == Err::<
                Pak,
                PakError,
            >(PakError::HeaderError),
    {
        let ghost hyp = exists|p: Pak| decodes_to(input@, p);
        let ghost tq = if hyp {
            choose|p: Pak| decodes_to(input@, p)
        } else {
            arbitrary()
        };
        let ghost j = tq.unknown_pre_data@.len() as int;
        let ghost c = tq.entries@.len() as int;
        proof {
            if hyp {
                lemma_layout(input@, tq);
            }
        }
        let n = input.len();
        if n < 36 {
            return Err(PakError::IoError);
        }
        let header = read_header(input);
        if header.block_size == 0 {
            return Err(PakError::HeaderError);
        }
        let bs = header.block_size;
        let first_offset = header.data_offset / bs;
        let data_offset = header.data_offset as usize;
        proof {
            if hyp {
                assert(header == tq.header);
                assert(sentinel_found(input@, 36, data_offset as int, first_offset, j));
            }
        }
        let (pre, mut pos) = match read_pre_data(input, 36, data_offset, first_offset) {
            Ok(x) => x,
            Err(e) => return Err(e),
        };
        proof {
            lemma_subrange_join(input@, 0, 36, pos as int);
        }
        let count = header.entry_count as usize;
        let has_blobs = header.flags.has_unknown_data1();
        let has_names = header.flags.has_names();
        let ghost tstart = pos as int;
        let (mut entries, p) = match read_table(input, pos, count, header.id_start) {
            Ok(x) => x,
            Err(e) => return Err(e),
        };
        pos = p;
        let ghost es1 = entries@;
        let ghost tend = pos as int;
        proof {
            if hyp {
                lemma_tables_agree(entries@, tq.entries@);
            }
        }
        if has_blobs {
            pos = match read_blobs(input, pos, &mut entries) {
                Ok(p) => p,
                Err(e) => return Err(e),
            };
        }
        let ghost es2 = entries@;
        let ghost bend = pos as int;
        let mut subdirectory: Option<Vec<u8>> = None;
        if has_names && header.subdir_offset != 0 {
            proof {
                if hyp {
                    let dd = tq.subdirectory.unwrap()@;
                    assert(input@[pos + dd.len()] == cstring(dd)[dd.len() as int]);
                }
            }
            let (d, p) = match read_cstring(input, pos) {
                Some(x) => x,
                None => return Err(PakError::IoError),
            };
            proof {
                if hyp {
                    let dd = tq.subdirectory.unwrap()@;
                    let m = dd.len() as int;
                    assert(input@[pos + m] == 0) by {
                        assert(input@[pos + m] == cstring(dd)[m]);
                    }
                    if p - 1 < pos + m {
                        assert(input@[p - 1] == cstring(dd)[p - 1 - pos]);
                    } else if p - 1 > pos + m {
                        assert(d@[m] == input@[pos + m]);
                    }
                }
            }
            subdirectory = Some(d);
            pos = p;
        }
        let ghost dend = pos as int;
        if has_names {
            pos = match read_names(input, pos, &mut entries, Ghost(tq.entries@)) {
                Ok(p) => p,
                Err(e) => return Err(e),
            };
        }
        let ghost es3 = entries@;
        let ghost names_end = pos as int;
        if pos > data_offset {
            return Err(PakError::HeaderError);
        }
        if data_offset > n {
            return Err(PakError::IoError);
        }
        let post = copy_range(input, pos, data_offset - pos);
        match read_data(input, bs, &mut entries) {
            Ok(()) => {},
            Err(e) => return Err(e),
        }
        let p = Pak {
            subdirectory,
            path,
            header,
            unknown_pre_data: pre,
            unknown_post_header: post,
            entries,
        };
        proof {
            let s = input@;
            let es = p.entries@;
            lemma_entries_bytes_congruent(es1, es, |e: Entry| table_record(e));
            if has_blobs {
                lemma_entries_bytes_congruent(es2, es, |e: Entry| blob_record(e));
            }
            if has_names {
                lemma_entries_bytes_congruent(es3, es, |e: Entry| name_record(e));
            }
            lemma_subrange_join(s, 0, 36, tstart);
            lemma_subrange_join(s, 0, tstart, tend);
            lemma_subrange_join(s, 0, tend, bend);
            lemma_subrange_join(s, 0, bend, dend);
            lemma_subrange_join(s, 0, dend, names_end);
            lemma_subrange_join(s, 0, names_end, data_offset as int);
            if has_names {
                lemma_subrange_join(s, bend, dend, names_end);
                assert(s.subrange(bend, names_end) == names_bytes(p));
            } else {
                assert(s.subrange(bend, dend) =~= seq![]);
                assert(s.subrange(dend, names_end) =~= seq![]);
            }
            if !has_blobs {
                assert(s.subrange(tend, bend) =~= seq![]);
            }
            assert(s.subrange(0, data_offset as int) =~= pak_prefix(p));
            assert forall|i: int| #![trigger es[i]] 0 <= i < es.len() implies {
                let e = es[i];
                &&& e.index == i
                &&& e.id == id_for(p.header.id_start, i)
                &&& e.length == e.data@.len()
                &&& e.unknown1.is_some() == flag_blobs(p.header.flags.0)
                &&& e.name.is_some() == flag_names(p.header.flags.0)
                &&& (e.name.is_some() ==> no_nul(e.name.unwrap()@))
            } by {
                assert(es1[i].index == i);
                assert(same_but_blob(es2[i], es1[i]));
                assert(same_but_name(es3[i], es2[i]));
                assert(same_but_data(es[i], es3[i]));
            }
        }
        proof {
            reveal(decodes_to);
        }
        Ok(p)
    }
}


/// The section of the archive that a pass over the entries writes.
enum EntryPart {
    Table,
    Blob,
    Name,
    Data,
}

/// The bytes that a pass over `es` writes for `part`.
spec fn part_bytes(es: Seq<Entry>, part: EntryPart, bs: u32) -> Seq<u8> {
    match part {
        EntryPart::Table => entries_bytes(es, |e: Entry| table_record(e)),
        EntryPart::Blob => entries_bytes(es, |e: Entry| blob_record(e)),
        EntryPart::Name => entries_bytes(es, |e: Entry| name_record(e)),
        EntryPart::Data => entries_bytes(es, |e: Entry| data_record(e, bs as int)),
    }
}

/// Appends the bytes of each word.
fn write_words(output: &mut Vec<u8>, w: &Vec<u32>)
    ensures
        final(output)@ == old(output)@ + words_bytes(w@),
{
    let ghost a0 = output@;
    let mut i: usize = 0;
    while i < w.len()
        invariant
            i <= w@.len(),
            a0 == old(output)@,
            output@ == a0 + words_bytes(w@.take(i as int)),
        decreases w@.len() - i,
    {
        proof {
            assert(w@.take(i + 1) =~= w@.take(i as int).push(w@[i as int]));
            lemma_words_bytes_push(w@.take(i as int), w@[i as int]);
        }
        push_u32(output, w[i]);
        i += 1;
    }
    assert(w@.take(i as int) =~= w@);
}

/// Appends, for each entry in order, its bytes for `part`.
fn write_entries(output: &mut Vec<u8>, es: &Vec<Entry>, part: EntryPart, bs: u32)
    requires
        part is Data ==> bs > 0,
    ensures
        final(output)@ == old(output)@ + part_bytes(es@, part, bs),
{
    let ghost a0 = output@;
    let n = es.len();
    let mut i: usize = 0;
    while i < n
        invariant
            n == es@.len(),
            i <= n,
            part is Data ==> bs > 0,
            a0 == old(output)@,
            output@ == a0 + part_bytes(es@.take(i as int), part, bs),
        decreases n - i,
    {
        let e = &es[i];
        let ghost b = output@;
        match part {
            EntryPart::Table => {
                proof {
                    lemma_entries_bytes_take(es@, i as int, |e: Entry| table_record(e));
                }
                push_u32(output, e.offset);
                push_u32(output, e.length);
            },
            EntryPart::Blob => {
                proof {
                    lemma_entries_bytes_take(es@, i as int, |e: Entry| blob_record(e));
                }
                match &e.unknown1 {
                    Some(b) => push_all(output, b),
                    None => {},
                }
            },
            EntryPart::Name => {
                proof {
                    lemma_entries_bytes_take(es@, i as int, |e: Entry| name_record(e));
                }
                match &e.name {
                    Some(nm) => {
                        push_all(output, nm.as_slice());
                        output.push(0u8);
                    },
                    None => {},
                }
            },
            EntryPart::Data => {
                proof {
                    lemma_entries_bytes_take(es@, i as int, |e: Entry| data_record(e, bs as int));
                }
                push_all(output, e.data.as_slice());
                let b2 = bs as usize;
                let pad = (b2 - e.data.len() % b2) % b2;
                let mut k: usize = 0;
                while k < pad
                    invariant
                        k <= pad,
                        output@ == b + e.data@ + Seq::new(k as nat, |m: int| 0u8),
                    decreases pad - k,
                {
                    output.push(0u8);
                    k += 1;
                    assert(output@ =~= b + e.data@ + Seq::new(k as nat, |m: int| 0u8));
                }
            },
        }
        proof {
            match part {
                EntryPart::Table => {
                    assert(output@ =~= b + table_record(es@[i as int]));
                },
                EntryPart::Blob => {
                    assert(output@ =~= b + blob_record(es@[i as int]));
                },
                EntryPart::Name => {
                    assert(output@ =~= b + name_record(es@[i as int]));
                },
                EntryPart::Data => {
                    assert(output@ =~= b + data_record(es@[i as int], bs as int));
                },
            }
        }
        i += 1;
    }
    assert(es@.take(n as int) =~= es@);
}

impl Pak {
    /// Encodes the archive: header, pre-data words, the offset table from the
    /// current entries, the optional records and names, the opaque tail, then
    /// each entry's data padded with zeros to a block boundary.
    pub fn encode(&self, output: &mut Vec<u8>)
        requires
            self.header.block_size > 0,
        ensures
            final(output)@ == old(output)@ + pak_bytes(*self),
    {
        let ghost o = old(output)@;
        self.header.write_into(output);
        write_words(output, &self.unknown_pre_data);
        write_entries(output, &self.entries, EntryPart::Table, 1);
        if self.header.flags.has_unknown_data1() {
            write_entries(output, &self.entries, EntryPart::Blob, 1);
        }
        if self.header.flags.has_names() {
            let ghost a3 = output@;
            match &self.subdirectory {
                Some(d) => {
                    push_all(output, d.as_slice());
                    output.push(0u8);
                },
                None => {},
            }
            write_entries(output, &self.entries, EntryPart::Name, 1);
            assert(output@ =~= a3 + names_bytes(*self));
        }
        push_all(output, self.unknown_post_header.as_slice());
        assert(output@ =~= o + pak_prefix(*self));
        write_entries(output, &self.entries, EntryPart::Data, self.header.block_size);
    }

    /// The archive's header.
    pub fn header(&self) -> (r: &Header)
        ensures
            *r == self.header,
    {
        &self.header
    }

    /// The identifier the archive was decoded with.
    pub fn path(&self) -> (r: &String)
        ensures
            r@ == self.path@,
    {
        &self.path
    }

    /// The archive's entries, in table order.
    pub fn entries(&self) -> (r: &Vec<Entry>)
        ensures
            r@ == self.entries@,
    {
        &self.entries
    }

    /// The entry whose id is `id`, that is the entry at `id - id_start`.
    pub fn get_entry_by_id(&self, id: u32) -> (r: Option<&Entry>)
        ensures
            id >= self.header.id_start && id - self.header.id_start < self.entries@.len() ==> r
                == Some(&self.entries@[id - self.header.id_start]),
            !(id >= self.header.id_start && id - self.header.id_start < self.entries@.len())
                ==> r is None,
    {
        if id < self.header.id_start {
            return None;
        }
        let k = (id - self.header.id_start) as usize;
        if k < self.entries.len() {
            Some(&self.entries[k])
        } else {
            None
        }
    }

    /// The first entry whose stored name bytes are the UTF-8 bytes of `name`.
    /// Names are compared as stored, not as [`Entry::name`] shows them, so a
    /// stored name that is not valid UTF-8 is never found.
    pub fn get_entry_by_name(&self, name: &str) -> (r: Option<&Entry>)
        ensures
            r matches Some(e) ==> exists|k: int|
                0 <= k < self.entries@.len() && self.entries@[k] == *e && name_is(
                    self.entries@[k],
                    name.spec_bytes(),
                ) && forall|m: int| 0 <= m < k ==> !name_is(self.entries@[m], name.spec_bytes()),
            r is None <==> forall|k: int|
                0 <= k < self.entries@.len() ==> !name_is(self.entries@[k], name.spec_bytes()),
    {
        match self.find_name(name) {
            Some(k) => Some(&self.entries[k]),
            None => None,
        }
    }

    /// Whether some entry's stored name bytes are the UTF-8 bytes of `name`;
    /// names are compared as stored, as in [`Pak::get_entry_by_name`].
    pub fn contains_name(&self, name: &str) -> (r: bool)
        ensures
            r == exists|k: int|
                0 <= k < self.entries@.len() && name_is(self.entries@[k], name.spec_bytes()),
    {
        self.find_name(name).is_some()
    }

    /// The index of the first entry whose stored name is `name`.
    fn find_name(&self, name: &str) -> (r: Option<usize>)
        ensures
            r matches Some(k) ==> k < self.entries@.len() && name_is(
                self.entries@[k as int],
                name.spec_bytes(),
            ) && forall|m: int| 0 <= m < k ==> !name_is(self.entries@[m], name.spec_bytes()),
            r is None <==> forall|k: int|
                0 <= k < self.entries@.len() ==> !name_is(self.entries@[k], name.spec_bytes()),
    {
        let nb = name.as_bytes();
        let mut i: usize = 0;
        while i < self.entries.len()
            invariant
                i <= self.entries@.len(),
                nb@ == name.spec_bytes(),
                forall|m: int| 0 <= m < i ==> !name_is(self.entries@[m], name.spec_bytes()),
            decreases self.entries@.len() - i,
        {
            match &self.entries[i].name {
                Some(n) => {
                    if bytes_equal(n.as_slice(), nb) {
                        return Some(i);
                    }
                },
                None => {},
            }
            i += 1;
        }
        None
    }

    /// Replaces the data of the first entry whose stored name bytes are the
    /// UTF-8 bytes of `name`; see [`Pak::replace`]. Names are compared as
    /// stored, so a stored name that is not valid UTF-8 is never matched.
    pub fn replace_by_name(&mut self, name: String, replacement_bytes: &[u8]) -> (r: Result<
        (),
        PakError,
    >)
        requires
            old(self).wf(),
            replacement_bytes@.len() <= u32::MAX,
        ensures
            (forall|k: int|
                0 <= k < old(self).entries@.len() ==> !name_is(
                    old(self).entries@[k],
                    encode_utf8(name@),
                )) ==> r == Err::<(), PakError>(PakError::IndexError) && *final(self) == *old(
                self,
            ),
            (exists|k: int|
                0 <= k < old(self).entries@.len() && name_is(
                    old(self).entries@[k],
                    encode_utf8(name@),
                )) ==> {
                let k = first_named(old(self).entries@, encode_utf8(name@));
                &&& r == replace_outcome(*old(self), k, replacement_bytes@.len() as int)
                &&& r is Err ==> *final(self) == *old(self)
                &&& r is Ok ==> replaced(*old(self), *final(self), k, replacement_bytes@)
            },
    {
        let index = match self.find_name(name.as_str()) {
            Some(k) => k,
            None => return Err(PakError::IndexError),
        };
        proof {
            let b = encode_utf8(name@);
            let f = first_named(old(self).entries@, b);
            assert(0 <= index < old(self).entries@.len() && name_is(old(self).entries@[index as int], b)
                && forall|m: int| 0 <= m < index ==> !name_is(old(self).entries@[m], b));
            assert(0 <= f < old(self).entries@.len() && name_is(old(self).entries@[f], b) && forall|
                m: int,
            | 0 <= m < f ==> !name_is(old(self).entries@[m], b));
            if f < index {
            } else if f > index {
            }
            assert(f == index);
        }
        self.replace(index, replacement_bytes)
    }

    /// Replaces the data of the entry with id `id`, the entry at
    /// `id - id_start`; see [`Pak::replace`].
    pub fn replace_by_id(&mut self, id: u32, replacement_bytes: &[u8]) -> (r: Result<
        (),
        PakError,
    >)
        requires
            old(self).wf(),
            replacement_bytes@.len() <= u32::MAX,
        ensures
            !(id >= old(self).header.id_start && id - old(self).header.id_start < old(
                self,
            ).entries@.len()) ==> r == Err::<(), PakError>(PakError::IndexError) && *final(self)
                == *old(self),
            id >= old(self).header.id_start ==> {
                let k = id - old(self).header.id_start;
                &&& r == replace_outcome(*old(self), k, replacement_bytes@.len() as int)
                &&& r is Err ==> *final(self) == *old(self)
                &&& r is Ok ==> replaced(*old(self), *final(self), k, replacement_bytes@)
            },
    {
        if id < self.header.id_start {
            return Err(PakError::IndexError);
        }
        let k = (id - self.header.id_start) as usize;
        self.replace(k, replacement_bytes)
    }
}

/// Whether `e` has a stored name with bytes `b`.
pub open spec fn name_is(e: Entry, b: Seq<u8>) -> bool {
    e.name.is_some() && e.name.unwrap()@ == b
}

/// Whether two byte sequences are equal.
fn bytes_equal(a: &[u8], b: &[u8]) -> (r: bool)
    ensures
        r == (a@ == b@),
{
    if a.len() != b.len() {
        return false;
    }
    let mut i: usize = 0;
    while i < a.len()
        invariant
            a@.len() == b@.len(),
            i <= a@.len(),
            forall|m: int| 0 <= m < i ==> a@[m] == b@[m],
        decreases a@.len() - i,
    {
        if a[i] != b[i] {
            return false;
        }
        i += 1;
    }
    assert(a@ =~= b@);
    true
}

/// Decoding an encoded archive gives back its header and, byte for byte,
/// everything before its entry region: pre-data, offset table, opaque
/// records, names and opaque tail. This holds for every well-formed archive
/// whose entry region starts right after that part.
#[verifier::spinoff_prover]
#[verifier::rlimit(100)]
pub proof fn lemma_pak_metadata_round_trip(p: Pak, q: Pak)
    requires
        p.header.data_offset == pak_prefix(p).len(),
        decodes_to(pak_bytes(p), q),
    ensures
        q.header == p.header,
        pak_prefix(q) == pak_prefix(p),
{
    let s = pak_bytes(p);
    let pre = pak_prefix(p);
    let region = entries_bytes(
        p.entries@,
        |e: Entry| data_record(e, p.header.block_size as int),
    );
    assert(s == pre + region);
    lemma_decoded_facts(s, q);
    lemma_prefix_starts(p);
    assert(s.subrange(0, 36) =~= pre.subrange(0, 36));
    lemma_header_at_bytes(p.header, s);
    assert(s.subrange(0, p.header.data_offset as int) =~= pre);
}

proof fn lemma_prefix_starts(p: Pak)
    ensures
        pak_prefix(p).len() >= 36,
        pak_prefix(p).subrange(0, 36) == header_bytes(p.header),
{
    let hb = header_bytes(p.header);
    let a = words_bytes(p.unknown_pre_data@);
    let t = entries_bytes(p.entries@, |e: Entry| table_record(e));
    let bl = if flag_blobs(p.header.flags.0) {
        entries_bytes(p.entries@, |e: Entry| blob_record(e))
    } else {
        seq![]
    };
    let nm = if flag_names(p.header.flags.0) {
        names_bytes(p)
    } else {
        seq![]
    };
    let post = p.unknown_post_header@;
    assert(pak_prefix(p) == hb + a + t + bl + nm + post);
    assert((hb + a + t + bl + nm + post).subrange(0, 36) =~= hb);
}

proof fn lemma_decoded_facts(s: Seq<u8>, q: Pak)
    requires
        decodes_to(s, q),
    ensures
        q.header == header_at(s),
        q.header.data_offset <= s.len(),
        s.subrange(0, q.header.data_offset as int) == pak_prefix(q),
{
    reveal(decodes_to);
}

/// A header's bytes at the start of `s` are read back as that header.
proof fn lemma_header_at_bytes(h: Header, s: Seq<u8>)
    requires
        s.len() >= 36,
        s.subrange(0, 36) == header_bytes(h),
    ensures
        header_at(s) == h,
{
    let hb = header_bytes(h);
    let words: Seq<u32> = seq![
        h.data_offset,
        h.entry_count,
        h.id_start,
        h.block_size,
        h.subdir_offset,
        h.unknown2,
        h.unknown3,
        h.unknown4,
        h.flags.0,
    ];
    assert forall|k: int| 0 <= k < 9 implies u32_at(s, 4 * k) == #[trigger] words[k] by {
        assert(s.subrange(4 * k, 4 * k + 4) =~= hb.subrange(4 * k, 4 * k + 4));
        assert(hb.subrange(4 * k, 4 * k + 4) =~= u32_bytes(words[k]));
        crate::compression::lemma_u32_at_bytes(s, 4 * k, words[k]);
    }
    assert(u32_at(s, 0) == words[0]);
    assert(u32_at(s, 4) == words[1]);
    assert(u32_at(s, 8) == words[2]);
    assert(u32_at(s, 12) == words[3]);
    assert(u32_at(s, 16) == words[4]);
    assert(u32_at(s, 20) == words[5]);
    assert(u32_at(s, 24) == words[6]);
    assert(u32_at(s, 28) == words[7]);
    assert(u32_at(s, 32) == words[8]);
}

proof fn lemma_words_len(w: Seq<u32>)
    ensures
        words_bytes(w).len() == 4 * w.len(),
    decreases w.len(),
{
    if w.len() > 0 {
        lemma_words_len(w.drop_last());
    }
}

proof fn lemma_table_len(es: Seq<Entry>)
    ensures
        entries_bytes(es, |e: Entry| table_record(e)).len() == 8 * es.len(),
    decreases es.len(),
{
    if es.len() > 0 {
        lemma_table_len(es.drop_last());
    }
}

proof fn lemma_blob_len(es: Seq<Entry>)
    requires
        forall|k: int| 0 <= k < es.len() ==> (#[trigger] es[k]).unknown1.is_some(),
    ensures
        entries_bytes(es, |e: Entry| blob_record(e)).len() == 12 * es.len(),
    decreases es.len(),
{
    if es.len() > 0 {
        let u = es.drop_last();
        assert forall|k: int| 0 <= k < u.len() implies (#[trigger] u[k]).unknown1.is_some() by {
            assert(u[k] == es[k]);
        }
        lemma_blob_len(u);
        assert(es.last().unknown1.is_some());
    }
}

/// Two entry sequences with the same offset table have the same offsets
/// and lengths.
proof fn lemma_tables_agree(a: Seq<Entry>, b: Seq<Entry>)
    requires
        a.len() == b.len(),
        entries_bytes(a, |e: Entry| table_record(e)) == entries_bytes(b, |e: Entry| table_record(e)),
    ensures
        forall|k: int|
            #![trigger a[k]]
            0 <= k < a.len() ==> a[k].offset == b[k].offset && a[k].length == b[k].length,
    decreases a.len(),
{
    if a.len() > 0 {
        let f = |e: Entry| table_record(e);
        let ua = a.drop_last();
        let ub = b.drop_last();
        lemma_table_len(ua);
        lemma_table_len(ub);
        let ea = entries_bytes(a, f);
        assert(ea == entries_bytes(ua, f) + table_record(a.last()));
        assert(ea == entries_bytes(ub, f) + table_record(b.last()));
        let m = entries_bytes(ua, f).len() as int;
        assert(entries_bytes(ua, f) =~= ea.subrange(0, m));
        assert(entries_bytes(ub, f) =~= ea.subrange(0, m));
        assert(table_record(a.last()) =~= ea.subrange(m, m + 8));
        assert(table_record(b.last()) =~= ea.subrange(m, m + 8));
        lemma_tables_agree(ua, ub);
        let ra = table_record(a.last());
        crate::bytes::lemma_u32_round_trip(a.last().offset);
        crate::bytes::lemma_u32_round_trip(b.last().offset);
        crate::bytes::lemma_u32_round_trip(a.last().length);
        crate::bytes::lemma_u32_round_trip(b.last().length);
        assert(ra.subrange(0, 4) =~= u32_bytes(a.last().offset));
        assert(table_record(b.last()).subrange(0, 4) =~= u32_bytes(b.last().offset));
        assert(ra.subrange(4, 8) =~= u32_bytes(a.last().length));
        assert(table_record(b.last()).subrange(4, 8) =~= u32_bytes(b.last().length));
        assert forall|k: int|
            #![trigger a[k]]
            0 <= k < a.len() implies a[k].offset == b[k].offset && a[k].length == b[k].length by {
            if k < a.len() - 1 {
                assert(ua[k] == a[k] && ub[k] == b[k]);
            }
        }
    }
}

/// Where each part of an archive that `s` decodes to stands in `s`.
proof fn lemma_layout(s: Seq<u8>, q: Pak)
    requires
        decodes_to(s, q),
    ensures
        ({
            let h = q.header;
            let j = q.unknown_pre_data@.len() as int;
            let c = q.entries@.len() as int;
            let t0 = 36 + 4 * j;
            let t1 = t0 + 8 * c;
            let t2 = t1 + if flag_blobs(h.flags.0) {
                12 * c
            } else {
                0
            };
            let t3 = t2 + match q.subdirectory {
                Some(d) => d@.len() + 1int,
                None => 0int,
            };
            let nb = entries_bytes(q.entries@, |e: Entry| name_record(e));
            let t4 = t3 + if flag_names(h.flags.0) {
                nb.len() as int
            } else {
                0
            };
            &&& header_at(s) == h
            &&& h.block_size > 0
            &&& c == h.entry_count
            &&& sentinel_found(s, 36, h.data_offset as int, h.data_offset / h.block_size, j)
            &&& t4 <= h.data_offset <= s.len()
            &&& s.subrange(t0, t1) == entries_bytes(q.entries@, |e: Entry| table_record(e))
            &&& q.subdirectory.is_some() == (flag_names(h.flags.0) && h.subdir_offset != 0)
            &&& (q.subdirectory matches Some(d) ==> s.subrange(t2, t3) == cstring(d@) && no_nul(
                d@,
            ))
            &&& (flag_names(h.flags.0) ==> names_fit(s, t3, q.entries@, c))
            &&& forall|i: int|
                #![trigger q.entries@[i]]
                0 <= i < c ==> q.entries@[i].offset * h.block_size + q.entries@[i].length
                    <= s.len()
        }),
{
    reveal(decodes_to);
    lemma_layout_parts(s, q);
}

proof fn lemma_split(s: Seq<u8>, a: int, b: int, x: Seq<u8>, y: Seq<u8>)
    requires
        0 <= a <= b <= s.len(),
        s.subrange(a, b) == x + y,
    ensures
        s.subrange(a, a + x.len()) == x,
        s.subrange(a + x.len(), b) == y,
        b == a + x.len() + y.len(),
{
    assert(s.subrange(a, a + x.len()) =~= (x + y).subrange(0, x.len() as int));
    assert(s.subrange(a + x.len(), b) =~= (x + y).subrange(x.len() as int, (x + y).len() as int));
}

#[verifier::rlimit(60)]
proof fn lemma_layout_parts(s: Seq<u8>, q: Pak)
    requires
        q.wf(),
        q.header.data_offset <= s.len(),
        s.subrange(0, q.header.data_offset as int) == pak_prefix(q),
        q.subdirectory.is_some() == (flag_names(q.header.flags.0) && q.header.subdir_offset != 0),
        36 + 4 * q.unknown_pre_data@.len() < q.header.data_offset,
        36 + 4 * q.unknown_pre_data@.len() + 4 <= s.len(),
        u32_at(s, 36 + 4 * q.unknown_pre_data@.len() as int) == q.header.data_offset
            / q.header.block_size,
        forall|k: int|
            0 <= k < q.unknown_pre_data@.len() ==> q.unknown_pre_data@[k] != q.header.data_offset
                / q.header.block_size,
        forall|i: int|
            #![trigger q.entries@[i]]
            0 <= i < q.entries@.len() ==> q.entries@[i].offset * q.header.block_size
                + q.entries@[i].length <= s.len(),
        header_at(s) == q.header,
    ensures
        ({
            let h = q.header;
            let j = q.unknown_pre_data@.len() as int;
            let c = q.entries@.len() as int;
            let t0 = 36 + 4 * j;
            let t1 = t0 + 8 * c;
            let t2 = t1 + if flag_blobs(h.flags.0) {
                12 * c
            } else {
                0
            };
            let t3 = t2 + match q.subdirectory {
                Some(d) => d@.len() + 1int,
                None => 0int,
            };
            let nb = entries_bytes(q.entries@, |e: Entry| name_record(e));
            let t4 = t3 + if flag_names(h.flags.0) {
                nb.len() as int
            } else {
                0
            };
            &&& header_at(s) == h
            &&& h.block_size > 0
            &&& c == h.entry_count
            &&& sentinel_found(s, 36, h.data_offset as int, h.data_offset / h.block_size, j)
            &&& t4 <= h.data_offset <= s.len()
            &&& s.subrange(t0, t1) == entries_bytes(q.entries@, |e: Entry| table_record(e))
            &&& q.subdirectory.is_some() == (flag_names(h.flags.0) && h.subdir_offset != 0)
            &&& (q.subdirectory matches Some(d) ==> s.subrange(t2, t3) == cstring(d@) && no_nul(
                d@,
            ))
            &&& (flag_names(h.flags.0) ==> names_fit(s, t3, q.entries@, c))
            &&& forall|i: int|
                #![trigger q.entries@[i]]
                0 <= i < c ==> q.entries@[i].offset * h.block_size + q.entries@[i].length
                    <= s.len()
        }),
{
    let h = q.header;
    let j = q.unknown_pre_data@.len() as int;
    let c = q.entries@.len() as int;
    let d = h.data_offset as int;
    let hb = header_bytes(h);
    let w = words_bytes(q.unknown_pre_data@);
    let t = entries_bytes(q.entries@, |e: Entry| table_record(e));
    let bl = if flag_blobs(h.flags.0) {
        entries_bytes(q.entries@, |e: Entry| blob_record(e))
    } else {
        seq![]
    };
    let dir = match q.subdirectory {
        Some(dd) => cstring(dd@),
        None => seq![],
    };
    let nb = entries_bytes(q.entries@, |e: Entry| name_record(e));
    let nm = if flag_names(h.flags.0) {
        names_bytes(q)
    } else {
        seq![]
    };
    let post = q.unknown_post_header@;
    assert(pak_prefix(q) == hb + w + t + bl + nm + post);
    lemma_words_len(q.unknown_pre_data@);
    lemma_table_len(q.entries@);
    if flag_blobs(h.flags.0) {
        assert forall|k: int| 0 <= k < c implies (#[trigger] q.entries@[k]).unknown1.is_some() by {}
        lemma_blob_len(q.entries@);
    }
    lemma_split(s, 0, d, hb + w + t + bl + nm, post);
    lemma_split(s, 0, d - post.len(), hb + w + t + bl, nm);
    lemma_split(s, 0, d - post.len() - nm.len(), hb + w + t, bl);
    lemma_split(s, 0, d - post.len() - nm.len() - bl.len(), hb + w, t);
    lemma_split(s, 0, 36 + w.len() as int, hb, w);
    if flag_names(h.flags.0) {
        assert(nm == dir + nb);
        let t2 = (36 + w.len() + t.len() + bl.len()) as int;
        lemma_split(s, t2, t2 + nm.len() as int, dir, nb);
    } else {
        assert(q.subdirectory.is_none());
    }
    assert forall|k: int| 0 <= k < j implies #[trigger] u32_at(s, 36 + 4 * k) != h.data_offset
        / h.block_size by {
        lemma_words_index_at(q.unknown_pre_data@, k);
        assert(s.subrange(36 + 4 * k, 36 + 4 * k + 4) =~= s.subrange(36, 36 + w.len() as int).subrange(
            4 * k,
            4 * k + 4,
        ));
        crate::compression::lemma_u32_at_bytes(s, 36 + 4 * k, q.unknown_pre_data@[k]);
    }
}

proof fn lemma_words_index_at(w: Seq<u32>, k: int)
    requires
        0 <= k < w.len(),
    ensures
        words_bytes(w).len() == 4 * w.len(),
        words_bytes(w).subrange(4 * k, 4 * k + 4) == u32_bytes(w[k]),
    decreases w.len(),
{
    lemma_words_len(w);
    let u = w.drop_last();
    lemma_words_len(u);
    assert(words_bytes(w) == words_bytes(u) + u32_bytes(w.last()));
    if k < u.len() {
        lemma_words_index_at(u, k);
        assert(w[k] == u[k]);
        assert(words_bytes(w).subrange(4 * k, 4 * k + 4) =~= words_bytes(u).subrange(
            4 * k,
            4 * k + 4,
        ));
    } else {
        assert(words_bytes(w).subrange(4 * k, 4 * k + 4) =~= u32_bytes(w[k]));
    }
}

} // verus!
