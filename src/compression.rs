//! The chunked LZW codecs of CZ1 to CZ4 payloads.
//!
//! LZW-A (CZ1, CZ3, CZ4) stores 16-bit little-endian codes; LZW-B (CZ2)
//! stores a bit stream in which each code is a flag bit followed by a
//! 15-bit (flag 0) or 18-bit (flag 1) code, after a leading zero byte.
//!
//! The leading byte of an LZW-B chunk is a sentinel: the encoder writes it
//! as 0x00 and the decoder skips it, reading the first code from bit 8. No
//! input byte is overwritten, so every chunk decodes to exactly the bytes
//! it encoded.
//! Both decoders share one dictionary scheme, defined by `lzw_run`.

use vstd::prelude::*;
use crate::bitio::{bits_of, bits_value, byte_bit, value_bit, BitIo};
use crate::bytes::{push_all, push_u16, push_u32, read_u16, read_u32, u16_at, u16_bytes, u32_at, u32_bytes};
use crate::common::CzError;

verus! {

/// The sizes of one compressed chunk.
#[derive(Debug, Clone, Copy, PartialEq, Eq, Structural)]
pub struct ChunkInfo {
    /// The size of the chunk when compressed: 16-bit words for LZW-A, bytes
    /// for LZW-B.
    pub size_compressed: usize,
    /// The size of the chunk's data once decompressed, as recorded.
    pub size_raw: usize,
}

/// The table of compressed chunks that starts a CZ1 to CZ4 payload.
#[derive(Debug, Clone)]
pub struct CompressionInfo {
    /// Number of chunks.
    pub chunk_count: usize,
    /// Total compressed size, in the codec's unit.
    pub total_size_compressed: usize,
    /// Total size of the uncompressed data.
    pub _total_size_raw: usize,
    /// The chunks, in order.
    pub chunks: Vec<ChunkInfo>,
    /// Position just after the table.
    pub length: usize,
}

/// The dictionary that every chunk starts from: each byte on its own.
pub open spec fn initial_dict() -> Seq<Seq<u8>> {
    Seq::new(256, |i: int| seq![i as u8])
}

/// A decoder's state: dictionary, previous string and output so far.
pub type LzwState = (Seq<Seq<u8>>, Seq<u8>, Seq<u8>);

/// One decoding step on code `c`: a known code gives its string, the next
/// free code gives the previous string and its first byte, any other code
/// is an error. The previous string plus the first byte of the new one
/// joins the dictionary.
pub open spec fn lzw_step(st: LzwState, c: int) -> Option<LzwState> {
    let dict = st.0;
    let w = st.1;
    let entry = if 0 <= c < dict.len() {
        Some(dict[c])
    } else if c == dict.len() {
        Some(w.push(w[0]))
    } else {
        None
    };
    match entry {
        Some(e) => Some((dict.push(w.push(e[0])), e, st.2 + e)),
        None => None,
    }
}

/// The decoder's state after `codes`, starting from the previous string `[0]`.
pub open spec fn lzw_run(codes: Seq<int>) -> Option<LzwState>
    decreases codes.len(),
{
    if codes.len() == 0 {
        Some((initial_dict(), seq![0u8], seq![]))
    } else {
        match lzw_run(codes.drop_last()) {
            Some(st) => lzw_step(st, codes.last()),
            None => None,
        }
    }
}

/// The bytes that `codes` decode to, if every code is valid.
pub open spec fn lzw_decode(codes: Seq<int>) -> Option<Seq<u8>> {
    match lzw_run(codes) {
        Some(st) => Some(st.2),
        None => None,
    }
}

/// The 16-bit codes stored in `n` words at `pos`.
pub open spec fn words_at(s: Seq<u8>, pos: int, n: int) -> Seq<int> {
    Seq::new(n as nat, |k: int| u16_at(s, pos + 2 * k) as int)
}

/// The codes of an LZW-B chunk `d`: read from bit 8 on, while each code
/// ends within the chunk's bytes.
pub open spec fn b_codes(bits: Seq<bool>, pos: int, size: int) -> Seq<int>
    decreases bits.len() - pos,
{
    if pos < 0 || pos + 19 > bits.len() {
        seq![]
    } else {
        let n: nat = if bits[pos] {
            18
        } else {
            15
        };
        let end = pos + 1 + n;
        if end / 8 > size {
            seq![]
        } else {
            seq![bits_value(bits, pos + 1, n) as int] + b_codes(bits, end, size)
        }
    }
}

/// The codes of the LZW-B chunk `d`.
pub open spec fn chunk_b_codes(d: Seq<u8>) -> Seq<int> {
    b_codes(bits_of(d + seq![0u8, 0u8, 0u8, 0u8]), 8, d.len() as int)
}

/// Whether a decoder state's dictionary and previous string are non-empty.
pub open spec fn state_ok(st: LzwState) -> bool {
    &&& st.1.len() > 0
    &&& forall|k: int| 0 <= k < st.0.len() ==> #[trigger] st.0[k].len() > 0
}

proof fn lemma_step_ok(st: LzwState, c: int)
    requires
        state_ok(st),
        lzw_step(st, c) is Some,
    ensures
        state_ok(lzw_step(st, c).unwrap()),
        lzw_step(st, c).unwrap().0.len() == st.0.len() + 1,
{
    let n = lzw_step(st, c).unwrap();
    assert forall|k: int| 0 <= k < n.0.len() implies #[trigger] n.0[k].len() > 0 by {
        if k < st.0.len() {
            assert(n.0[k] == st.0[k]);
        }
    }
}

/// The exec form of a decoder state.
struct Decoder {
    dict: Vec<Vec<u8>>,
    w: Vec<u8>,
    out: Vec<u8>,
}

impl Decoder {
    spec fn matches(&self, st: LzwState) -> bool {
        &&& self.dict@.len() == st.0.len()
        &&& forall|k: int| 0 <= k < st.0.len() ==> #[trigger] self.dict@[k]@ == st.0[k]
        &&& self.w@ == st.1
        &&& self.out@ == st.2
    }

    fn new() -> (r: Self)
        ensures
            r.matches(lzw_run(seq![]).unwrap()),
            state_ok(lzw_run(seq![]).unwrap()),
            r.dict@.len() == 256,
    {
        let mut dict: Vec<Vec<u8>> = Vec::with_capacity(256);
        let mut i: usize = 0;
        while i < 256
            invariant
                i <= 256,
                dict@.len() == i,
                forall|k: int| 0 <= k < i ==> #[trigger] dict@[k]@ == seq![k as u8],
            decreases 256 - i,
        {
            let mut v: Vec<u8> = Vec::new();
            v.push(i as u8);
            dict.push(v);
            i += 1;
        }
        let mut w: Vec<u8> = Vec::new();
        w.push(0u8);
        let r = Decoder { dict, w, out: Vec::new() };
        assert(r.out@ =~= seq![]);
        r
    }

    /// Applies one code; `false` when the code is invalid.
    fn step(&mut self, c: usize, Ghost(st): Ghost<LzwState>) -> (ok: bool)
        requires
            old(self).matches(st),
            state_ok(st),
        ensures
            ok == lzw_step(st, c as int) is Some,
            ok ==> final(self).matches(lzw_step(st, c as int).unwrap()),
    {
        let n = self.dict.len();
        let entry: Vec<u8> = if c < n {
            assert(st.0[c as int].len() > 0);
            crate::bytes::copy_range(self.dict[c].as_slice(), 0, self.dict[c].len())
        } else if c == n {
            let mut e = crate::bytes::copy_range(self.w.as_slice(), 0, self.w.len());
            e.push(self.w[0]);
            e
        } else {
            return false;
        };
        push_all(&mut self.out, entry.as_slice());
        let mut nw: Vec<u8> = Vec::new();
        std::mem::swap(&mut nw, &mut self.w);
        nw.push(entry[0]);
        self.dict.push(nw);
        self.w = entry;
        let ghost nst = lzw_step(st, c as int).unwrap();
        let ghost e = if c < n { st.0[c as int] } else { st.1.push(st.1[0]) };
        assert(entry@ == e);
        assert(nst == (st.0.push(st.1.push(e[0])), e, st.2 + e));
        assert(self.w@ == nst.1);
        assert(self.out@ == nst.2);
        assert(self.dict@.len() == nst.0.len());
        assert forall|k: int| 0 <= k < nst.0.len() implies #[trigger] self.dict@[k]@ == nst.0[k] by {
            if k < n {
                assert(self.dict@[k] == old(self).dict@[k]);
            }
        }
        true
    }
}

proof fn lemma_run_push(codes: Seq<int>, c: int)
    ensures
        lzw_run(codes.push(c)) == match lzw_run(codes) {
            Some(st) => lzw_step(st, c),
            None => None,
        },
{
    assert(codes.push(c).drop_last() =~= codes);
}

/// Decodes one LZW-A chunk.
fn decompress_lzw(input_data: &[u16], size: usize) -> (r: Result<Vec<u8>, CzError>)
    ensures
        r is Ok <==> lzw_decode(input_data@.map_values(|c: u16| c as int)) is Some,
        r matches Ok(v) ==> v@ == lzw_decode(input_data@.map_values(|c: u16| c as int)).unwrap(),
        r matches Err(e) ==> e is Corrupt,
{
    let ghost codes = input_data@.map_values(|c: u16| c as int);
    let mut d = Decoder::new();
    let mut i: usize = 0;
    while i < input_data.len()
        invariant
            i <= input_data@.len(),
            codes == input_data@.map_values(|c: u16| c as int),
            lzw_run(codes.take(i as int)) is Some,
            d.matches(lzw_run(codes.take(i as int)).unwrap()),
            state_ok(lzw_run(codes.take(i as int)).unwrap()),
            d.dict@.len() == 256 + i,
        decreases input_data@.len() - i,
    {
        let ghost st = lzw_run(codes.take(i as int)).unwrap();
        proof {
            assert(codes.take(i + 1) =~= codes.take(i as int).push(codes[i as int]));
            lemma_run_push(codes.take(i as int), codes[i as int]);
        }
        let ok = d.step(input_data[i] as usize, Ghost(st));
        if !ok {
            proof {
                lemma_run_none_extends(codes, i as int + 1);
            }
            return Err(crate::formats::corrupt("Bad compressed element"));
        }
        proof {
            lemma_step_ok(st, codes[i as int]);
        }
        i += 1;
    }
    assert(codes.take(i as int) =~= codes);
    Ok(d.out)
}

proof fn lemma_run_none_extends(codes: Seq<int>, k: int)
    requires
        0 <= k <= codes.len(),
        lzw_run(codes.take(k)) is None,
    ensures
        lzw_run(codes) is None,
    decreases codes.len() - k,
{
    if k < codes.len() {
        assert(codes.take(k + 1) =~= codes.take(k).push(codes[k]));
        lemma_run_push(codes.take(k), codes[k]);
        lemma_run_none_extends(codes, k + 1);
    } else {
        assert(codes.take(k) =~= codes);
    }
}

proof fn lemma_one_bit(bits: Seq<bool>, pos: int)
    ensures
        bits_value(bits, pos, 1) == if bits[pos] {
            1u64
        } else {
            0u64
        },
{
    assert(bits_value(bits, pos, 0) == 0);
    assert(0u64 | (1u64 << 0u64) == 1u64) by (bit_vector);
    assert(0u64 | 0u64 == 0u64) by (bit_vector);
}

/// Decodes one LZW-B chunk: its first byte is a sentinel and is skipped.
fn decompress_lzw2(input_data: &[u8], size: usize) -> (r: Result<Vec<u8>, CzError>)
    requires
        input_data@.len() <= u32::MAX,
    ensures
        r is Ok <==> lzw_decode(chunk_b_codes(input_data@)) is Some,
        r matches Ok(v) ==> v@ == lzw_decode(chunk_b_codes(input_data@)).unwrap(),
        r matches Err(e) ==> e is Corrupt,
{
    let n = input_data.len();
    let mut buf = crate::bytes::copy_range(input_data, 0, n);
    buf.push(0u8);
    buf.push(0u8);
    buf.push(0u8);
    buf.push(0u8);
    let ghost padded = input_data@ + seq![0u8, 0u8, 0u8, 0u8];
    assert(buf@ =~= padded);
    let mut io = BitIo::new(buf);
    let ghost bits = bits_of(padded);
    let _ = io.read_bit(8);
    let ghost all = chunk_b_codes(input_data@);
    let ghost mut done: Seq<int> = seq![];
    let mut d = Decoder::new();
    let limit: u64 = 8 * (n as u64 + 4);
    loop
        invariant
            io.wf(),
            io.bits() == bits,
            bits.len() == 8 * (n + 4),
            limit == 8 * (n + 4),
            n == input_data@.len(),
            n <= u32::MAX,
            all == done + b_codes(bits, io.position(), n as int),
            all == chunk_b_codes(input_data@),
            io.position() >= 8,
            io.position() <= bits.len(),
            io.buffer().len() == n + 4,
            lzw_run(done) is Some,
            d.matches(lzw_run(done).unwrap()),
            state_ok(lzw_run(done).unwrap()),
        ensures
            all == done,
            lzw_run(done) is Some,
            d.matches(lzw_run(done).unwrap()),
        decreases bits.len() - io.position(),
    {
        let pos = io.byte_offset() as u64 * 8 + io.bit_offset() as u64;
        if pos + 19 > limit {
            assert(b_codes(bits, io.position(), n as int) =~= seq![]);
            assert(all =~= done);
            break;
        }
        let ghost p = io.position();
        let flag = io.read_bit(1);
        proof {
            lemma_one_bit(bits, p);
        }
        let width: usize = if flag == 1 {
            18
        } else {
            15
        };
        let element = io.read_bit(width);
        if io.byte_offset() > n {
            assert(b_codes(bits, p, n as int) =~= seq![]);
            assert(all =~= done);
            break;
        }
        let ghost st = lzw_run(done).unwrap();
        let _dict_len = d.dict.len();
        if element > usize::MAX as u64 {
            proof {
                let k = done.len() as int;
                let full = done.push(element as int) + b_codes(bits, io.position(), n as int);
                assert(b_codes(bits, p, n as int) == seq![element as int] + b_codes(
                    bits,
                    io.position(),
                    n as int,
                ));
                assert(all =~= full);
                assert(full.take(k + 1) =~= done.push(element as int));
                lemma_run_push(done, element as int);
                lemma_run_none_extends(full, k + 1);
            }
            return Err(crate::formats::corrupt("Bad compressed element"));
        }
        proof {
            assert(b_codes(bits, p, n as int) == seq![element as int] + b_codes(
                bits,
                io.position(),
                n as int,
            ));
            lemma_run_push(done, element as int);
        }
        let ok = d.step(element as usize, Ghost(st));
        if !ok {
            proof {
                let k = done.len() as int;
                let full = done.push(element as int) + b_codes(bits, io.position(), n as int);
                assert(all =~= full);
                assert(full.take(k + 1) =~= done.push(element as int));
                lemma_run_none_extends(full, k + 1);
            }
            return Err(crate::formats::corrupt("Bad compressed element"));
        }
        proof {
            lemma_step_ok(st, element as int);
            assert(all =~= done.push(element as int) + b_codes(bits, io.position(), n as int));
            done = done.push(element as int);
        }
    }
    Ok(d.out)
}

/// The bytes of a chunk table.
pub open spec fn chunk_table_bytes(chunks: Seq<ChunkInfo>) -> Seq<u8>
    decreases chunks.len(),
{
    if chunks.len() == 0 {
        seq![]
    } else {
        chunk_table_bytes(chunks.drop_last()) + u32_bytes(chunks.last().size_compressed as u32)
            + u32_bytes(chunks.last().size_raw as u32)
    }
}

/// The chunk records at `pos`, `count` of them, when `s` holds them.
pub open spec fn chunks_at(s: Seq<u8>, pos: int, count: int) -> Seq<ChunkInfo> {
    Seq::new(
        count as nat,
        |k: int|
            ChunkInfo {
                size_compressed: u32_at(s, pos + 8 * k) as usize,
                size_raw: u32_at(s, pos + 8 * k + 4) as usize,
            },
    )
}

impl CompressionInfo {
    /// Appends the chunk count and the size pairs.
    pub fn write_into(&self, output: &mut Vec<u8>)
        requires
            self.chunk_count <= u32::MAX,
        ensures
            final(output)@ == old(output)@ + u32_bytes(self.chunk_count as u32) + chunk_table_bytes(
                self.chunks@,
            ),
    {
        push_u32(output, self.chunk_count as u32);
        let ghost a = output@;
        let mut i: usize = 0;
        while i < self.chunks.len()
            invariant
                i <= self.chunks@.len(),
                output@ == a + chunk_table_bytes(self.chunks@.take(i as int)),
            decreases self.chunks@.len() - i,
        {
            proof {
                assert(self.chunks@.take(i + 1).drop_last() =~= self.chunks@.take(i as int));
            }
            push_u32(output, self.chunks[i].size_compressed as u32);
            push_u32(output, self.chunks[i].size_raw as u32);
            i += 1;
            assert(output@ =~= a + chunk_table_bytes(self.chunks@.take(i as int)));
        }
        assert(self.chunks@.take(i as int) =~= self.chunks@);
    }
}

/// Reads the chunk table at `pos`.
pub fn get_chunk_info(input: &[u8], pos: usize) -> (r: Result<CompressionInfo, CzError>)
    ensures
        r matches Ok(info) ==> {
            &&& pos + 4 <= input@.len()
            &&& info.chunk_count == u32_at(input@, pos as int)
            &&& info.length == pos + 4 + 8 * info.chunk_count
            &&& info.length <= input@.len()
            &&& info.chunks@ == chunks_at(input@, pos + 4, info.chunk_count as int)
        },
        r is Err ==> r == Err::<CompressionInfo, CzError>(CzError::IoError),
        (pos + 4 <= input@.len() && pos + 4 + 8 * u32_at(input@, pos as int) <= input@.len())
            <==> r is Ok,
{
    let n = input.len();
    if pos > n || n - pos < 4 {
        return Err(CzError::IoError);
    }
    let count = read_u32(input, pos) as usize;
    let mut p = pos + 4;
    let mut chunks: Vec<ChunkInfo> = Vec::new();
    let mut total_c: usize = 0;
    let mut total_r: usize = 0;
    let mut i: usize = 0;
    while i < count
        invariant
            n == input@.len(),
            i <= count,
            count == u32_at(input@, pos as int),
            pos + 4 <= n,
            p == pos + 4 + 8 * i,
            p <= n,
            chunks@ == chunks_at(input@, pos + 4, i as int),
        decreases count - i,
    {
        if n - p < 8 {
            assert(pos + 4 + 8 * count > n);
            return Err(CzError::IoError);
        }
        let c = read_u32(input, p) as usize;
        let raw = read_u32(input, p + 4) as usize;
        chunks.push(ChunkInfo { size_compressed: c, size_raw: raw });
        total_c = total_c.wrapping_add(c);
        total_r = total_r.wrapping_add(raw);
        p += 8;
        i += 1;
        assert(chunks@ =~= chunks_at(input@, pos + 4, i as int));
    }
    Ok(
        CompressionInfo {
            chunk_count: count,
            total_size_compressed: total_c,
            _total_size_raw: total_r,
            chunks,
            length: p,
        },
    )
}

/// How a decoder reports an error of the chunk specs: an invalid code,
/// `DecodeError` in the specs, is reported as `Corrupt`; a chunk that runs
/// past the input is reported as `IoError`.
pub open spec fn reports(spec_error: CzError, e: CzError) -> bool {
    if spec_error == CzError::DecodeError {
        e is Corrupt
    } else {
        e == spec_error
    }
}

/// The result of decoding the first `k` LZW-A chunks from `pos`: the bytes
/// and the position after them. An invalid code is `DecodeError` here.
pub open spec fn decode_chunks_a(s: Seq<u8>, pos: int, chunks: Seq<ChunkInfo>, k: int) -> Result<
    (Seq<u8>, int),
    CzError,
>
    decreases k,
{
    if k <= 0 {
        Ok((seq![], pos))
    } else {
        match decode_chunks_a(s, pos, chunks, k - 1) {
            Ok((out, p)) => {
                let n = chunks[k - 1].size_compressed as int;
                if p + 2 * n > s.len() {
                    Err(CzError::IoError)
                } else {
                    match lzw_decode(words_at(s, p, n)) {
                        Some(d) => Ok((out + d, p + 2 * n)),
                        None => Err(CzError::DecodeError),
                    }
                }
            },
            Err(e) => Err(e),
        }
    }
}

/// The result of decoding the first `k` LZW-B chunks from `pos`.
pub open spec fn decode_chunks_b(s: Seq<u8>, pos: int, chunks: Seq<ChunkInfo>, k: int) -> Result<
    (Seq<u8>, int),
    CzError,
>
    decreases k,
{
    if k <= 0 {
        Ok((seq![], pos))
    } else {
        match decode_chunks_b(s, pos, chunks, k - 1) {
            Ok((out, p)) => {
                let n = chunks[k - 1].size_compressed as int;
                if p + n > s.len() || n > u32::MAX {
                    Err(CzError::IoError)
                } else {
                    match lzw_decode(chunk_b_codes(s.subrange(p, p + n))) {
                        Some(d) => Ok((out + d, p + n)),
                        None => Err(CzError::DecodeError),
                    }
                }
            },
            Err(e) => Err(e),
        }
    }
}

proof fn lemma_decode_a_err_stays(s: Seq<u8>, pos: int, chunks: Seq<ChunkInfo>, k: int, m: int)
    requires
        0 <= k <= m,
        decode_chunks_a(s, pos, chunks, k) is Err,
    ensures
        decode_chunks_a(s, pos, chunks, m) == decode_chunks_a(s, pos, chunks, k),
    decreases m - k,
{
    if m > k {
        lemma_decode_a_err_stays(s, pos, chunks, k, m - 1);
    }
}

proof fn lemma_decode_b_err_stays(s: Seq<u8>, pos: int, chunks: Seq<ChunkInfo>, k: int, m: int)
    requires
        0 <= k <= m,
        decode_chunks_b(s, pos, chunks, k) is Err,
    ensures
        decode_chunks_b(s, pos, chunks, m) == decode_chunks_b(s, pos, chunks, k),
    decreases m - k,
{
    if m > k {
        lemma_decode_b_err_stays(s, pos, chunks, k, m - 1);
    }
}

/// Decodes the LZW-A chunks that follow the chunk table.
pub fn decompress(input: &[u8], chunk_info: &CompressionInfo) -> (r: Result<Vec<u8>, CzError>)
    ensures
        ({
            let d = decode_chunks_a(
                input@,
                chunk_info.length as int,
                chunk_info.chunks@,
                chunk_info.chunks@.len() as int,
            );
            &&& r is Ok <==> d is Ok
            &&& r matches Ok(v) ==> v@ == d->Ok_0.0
            &&& r matches Err(e) ==> (d matches Err(de) && reports(de, e))
        }),
{
    let n = input.len();
    let ghost chunks = chunk_info.chunks@;
    let ghost start = chunk_info.length as int;
    let mut out: Vec<u8> = Vec::new();
    let mut p = chunk_info.length;
    let mut k: usize = 0;
    while k < chunk_info.chunks.len()
        invariant
            n == input@.len(),
            chunks == chunk_info.chunks@,
            start == chunk_info.length,
            k <= chunks.len(),
            decode_chunks_a(input@, start, chunks, k as int) == Ok::<(Seq<u8>, int), CzError>(
                (out@, p as int),
            ),
        decreases chunks.len() - k,
    {
        let c = chunk_info.chunks[k].size_compressed;
        if p > n || (n - p) / 2 < c {
            proof {
                lemma_decode_a_err_stays(input@, start, chunks, k + 1, chunks.len() as int);
            }
            return Err(CzError::IoError);
        }
        let mut words: Vec<u16> = Vec::with_capacity(c);
        let mut j: usize = 0;
        while j < c
            invariant
                j <= c,
                p + 2 * c <= n,
                n == input@.len(),
                words@.len() == j,
                forall|m: int| 0 <= m < j ==> words@[m] as int == u16_at(input@, p + 2 * m),
            decreases c - j,
        {
            words.push(read_u16(input, p + 2 * j));
            j += 1;
        }
        assert(words@.map_values(|w: u16| w as int) =~= words_at(input@, p as int, c as int));
        match decompress_lzw(words.as_slice(), chunk_info.chunks[k].size_raw) {
            Ok(d) => {
                push_all(&mut out, d.as_slice());
            },
            Err(e) => {
                proof {
                    lemma_decode_a_err_stays(input@, start, chunks, k + 1, chunks.len() as int);
                }
                return Err(e);
            },
        }
        p = p + 2 * c;
        k += 1;
    }
    Ok(out)
}

/// Decodes the LZW-B chunks that follow the chunk table.
pub fn decompress2(input: &[u8], chunk_info: &CompressionInfo) -> (r: Result<Vec<u8>, CzError>)
    ensures
        ({
            let d = decode_chunks_b(
                input@,
                chunk_info.length as int,
                chunk_info.chunks@,
                chunk_info.chunks@.len() as int,
            );
            &&& r is Ok <==> d is Ok
            &&& r matches Ok(v) ==> v@ == d->Ok_0.0
            &&& r matches Err(e) ==> (d matches Err(de) && reports(de, e))
        }),
{
    let n = input.len();
    let ghost chunks = chunk_info.chunks@;
    let ghost start = chunk_info.length as int;
    let mut out: Vec<u8> = Vec::new();
    let mut p = chunk_info.length;
    let mut k: usize = 0;
    while k < chunk_info.chunks.len()
        invariant
            n == input@.len(),
            chunks == chunk_info.chunks@,
            start == chunk_info.length,
            k <= chunks.len(),
            decode_chunks_b(input@, start, chunks, k as int) == Ok::<(Seq<u8>, int), CzError>(
                (out@, p as int),
            ),
        decreases chunks.len() - k,
    {
        let c = chunk_info.chunks[k].size_compressed;
        if p > n || n - p < c || c > u32::MAX as usize {
            proof {
                lemma_decode_b_err_stays(input@, start, chunks, k + 1, chunks.len() as int);
            }
            return Err(CzError::IoError);
        }
        let part = crate::bytes::copy_range(input, p, c);
        match decompress_lzw2(part.as_slice(), chunk_info.chunks[k].size_raw) {
            Ok(d) => {
                push_all(&mut out, d.as_slice());
            },
            Err(e) => {
                proof {
                    lemma_decode_b_err_stays(input@, start, chunks, k + 1, chunks.len() as int);
                }
                return Err(e);
            },
        }
        p = p + c;
        k += 1;
    }
    Ok(out)
}

/// The sum of the chunks' raw sizes.
pub open spec fn sum_raw(chunks: Seq<ChunkInfo>) -> int
    decreases chunks.len(),
{
    if chunks.len() == 0 {
        0
    } else {
        sum_raw(chunks.drop_last()) + chunks.last().size_raw
    }
}

/// The sum of the chunks' compressed sizes.
pub open spec fn sum_compressed(chunks: Seq<ChunkInfo>) -> int
    decreases chunks.len(),
{
    if chunks.len() == 0 {
        0
    } else {
        sum_compressed(chunks.drop_last()) + chunks.last().size_compressed
    }
}

/// The sum of a sequence of sizes.
pub open spec fn sum_of(s: Seq<int>) -> int
    decreases s.len(),
{
    if s.len() == 0 {
        0
    } else {
        sum_of(s.drop_last()) + s.last()
    }
}

/// The raw sizes as written for chunks whose logical sizes are `logical`:
/// with two chunks or more, the first is one less and the last one more.
pub open spec fn quirk_sizes(logical: Seq<int>) -> Seq<int> {
    if logical.len() < 2 {
        logical
    } else {
        logical.update(0, logical[0] - 1).update(
            logical.len() - 1,
            logical[logical.len() - 1] + 1,
        )
    }
}

proof fn lemma_sum_of_push(s: Seq<int>, v: int)
    ensures
        sum_of(s.push(v)) == sum_of(s) + v,
{
    assert(s.push(v).drop_last() =~= s);
}

proof fn lemma_sum_of_update(s: Seq<int>, i: int, v: int)
    requires
        0 <= i < s.len(),
    ensures
        sum_of(s.update(i, v)) == sum_of(s) - s[i] + v,
    decreases s.len(),
{
    if i == s.len() - 1 {
        assert(s.update(i, v).drop_last() =~= s.drop_last());
    } else {
        lemma_sum_of_update(s.drop_last(), i, v);
        assert(s.update(i, v).drop_last() =~= s.drop_last().update(i, v));
    }
}

proof fn lemma_sums_of_chunks(chunks: Seq<ChunkInfo>)
    ensures
        sum_raw(chunks) == sum_of(chunks.map_values(|c: ChunkInfo| c.size_raw as int)),
    decreases chunks.len(),
{
    if chunks.len() > 0 {
        lemma_sums_of_chunks(chunks.drop_last());
        assert(chunks.drop_last().map_values(|c: ChunkInfo| c.size_raw as int) =~= chunks.map_values(
            |c: ChunkInfo| c.size_raw as int,
        ).drop_last());
    }
}

/// The bytes of `codes` looked up in `strs`, one after another.
pub open spec fn concat_codes(strs: Seq<Seq<u8>>, codes: Seq<int>) -> Seq<u8>
    decreases codes.len(),
{
    if codes.len() == 0 {
        seq![]
    } else {
        concat_codes(strs, codes.drop_last()) + strs[codes.last()]
    }
}

/// The strings of the encoder's first 257 codes: each byte, then a filler
/// for the code that the encoder never uses.
spec fn initial_strs() -> Seq<Seq<u8>> {
    Seq::new(257, |i: int| if i < 256 { seq![i as u8] } else { seq![0u8] })
}

/// How the decoder's state after `codes` relates to the encoder's strings.
spec fn decoder_follows(codes: Seq<int>, strs: Seq<Seq<u8>>) -> bool {
    codes.len() >= 1 ==> {
        &&& lzw_run(codes) is Some
        &&& lzw_run(codes).unwrap().0.len() == 256 + codes.len()
        &&& forall|i: int|
            0 <= i < 256 + codes.len() && i != 256 ==> #[trigger] lzw_run(codes).unwrap().0[i]
                == strs[i]
        &&& lzw_run(codes).unwrap().1 == strs[codes.last()]
        &&& lzw_run(codes).unwrap().2 == concat_codes(strs, codes)
    }
}

proof fn lemma_concat_push(strs: Seq<Seq<u8>>, codes: Seq<int>, c: int)
    ensures
        concat_codes(strs, codes.push(c)) == concat_codes(strs, codes) + strs[c],
{
    assert(codes.push(c).drop_last() =~= codes);
}

proof fn lemma_concat_extend(strs: Seq<Seq<u8>>, strs2: Seq<Seq<u8>>, codes: Seq<int>)
    requires
        strs.len() <= strs2.len(),
        strs2.take(strs.len() as int) == strs,
        forall|k: int| 0 <= k < codes.len() ==> 0 <= #[trigger] codes[k] < strs.len(),
    ensures
        concat_codes(strs2, codes) == concat_codes(strs, codes),
    decreases codes.len(),
{
    if codes.len() > 0 {
        lemma_concat_extend(strs, strs2, codes.drop_last());
        assert(strs2[codes.last()] == strs2.take(strs.len() as int)[codes.last()]);
    }
}

/// One emission: the decoder, given code `v`, keeps following the encoder
/// once the encoder adds `strs[v]` plus byte `c` as its next string.
proof fn lemma_emit(codes: Seq<int>, strs: Seq<Seq<u8>>, v: int, c: u8)
    requires
        strs.len() == 257 + codes.len(),
        forall|i: int| 0 <= i < strs.len() ==> #[trigger] strs[i].len() > 0,
        forall|i: int| 0 <= i < 256 ==> #[trigger] strs[i] == seq![i as u8],
        forall|k: int| 0 <= k < codes.len() ==> 0 <= #[trigger] codes[k] < strs.len() && codes[k] != 256,
        decoder_follows(codes, strs),
        codes.len() >= 1 ==> strs[strs.len() - 1] == strs[codes.last()] + seq![strs[v][0]],
        0 <= v < strs.len(),
        v != 256,
        codes.len() == 0 ==> v < 256,
    ensures
        decoder_follows(codes.push(v), strs.push(strs[v] + seq![c])),
{
    let strs2 = strs.push(strs[v] + seq![c]);
    let codes2 = codes.push(v);
    lemma_run_push(codes, v);
    lemma_concat_push(strs, codes, v);
    assert(strs2.take(strs.len() as int) =~= strs);
    lemma_concat_extend(strs, strs2, codes);
    lemma_concat_extend(strs, strs2, codes2);
    if codes.len() == 0 {
        let st = lzw_run(codes).unwrap();
        assert(st.0 == initial_dict());
        assert(st.0[v] == seq![v as u8]);
        let n = lzw_step(st, v).unwrap();
        assert forall|i: int| 0 <= i < 257 && i != 256 implies #[trigger] n.0[i] == strs2[i] by {
            assert(n.0[i] == st.0[i]);
        }
        assert(concat_codes(strs, codes) =~= seq![]);
        assert(n.2 =~= concat_codes(strs, codes2));
    } else {
        let st = lzw_run(codes).unwrap();
        let w = st.1;
        let j = codes.len() as int;
        assert(st.0.len() == 256 + j);
        if v < 256 + j {
            assert(st.0[v] == strs[v]);
        } else {
            assert(v == 256 + j);
            assert(strs[v] == w + seq![strs[v][0]]);
            assert(strs[v][0] == w[0]);
            assert(w.push(w[0]) =~= strs[v]);
        }
        let n = lzw_step(st, v).unwrap();
        assert(n.1 == strs[v]);
        assert(n.0.len() == 257 + j);
        assert(n.0[256 + j] == w.push(strs[v][0]));
        assert(w.push(strs[v][0]) =~= strs[256 + j]);
        assert forall|i: int| 0 <= i < 256 + j + 1 && i != 256 implies #[trigger] n.0[i] == strs2[i] by {
            if i < 256 + j {
                assert(n.0[i] == st.0[i]);
            }
        }
    }
}

/// Encodes LZW-A codes from `data[start..]` into at most `size` codes.
/// `last` is the byte carried from the previous chunk, if any. Returns the
/// number of bytes of `data` consumed, the codes, and the byte to carry to
/// the next chunk when the budget ran out. The codes decode to the carried
/// byte and the consumed bytes, but for the byte carried on.
fn compress_lzw(data: &[u8], start: usize, size: usize, last: Vec<u8>) -> (r: (
    usize,
    Vec<u16>,
    Vec<u8>,
))
    requires
        0 < size <= 0xFEFD,
        start <= data@.len(),
        last@.len() <= 1,
    ensures
        start + r.0 <= data@.len(),
        r.1@.len() <= size,
        r.2@.len() <= 1,
        r.2@.len() == 0 ==> start + r.0 == data@.len(),
        r.2@.len() == 1 ==> r.1@.len() == size && r.0 >= 1 && r.2@[0] == data@[start + r.0 - 1],
        start < data@.len() ==> r.0 >= 1,
        start == data@.len() ==> r.0 == 0 && r.1@.len() == last@.len(),
        forall|k: int| 0 <= k < r.1@.len() ==> r.1@[k] < 257 + size,
        ({
            let consumed = last@ + data@.subrange(start as int, start + r.0);
            lzw_decode(r.1@.map_values(|c: u16| c as int)) == Some(
                if r.2@.len() == 1 {
                    consumed.drop_last()
                } else {
                    consumed
                },
            )
        }),
{
    broadcast use vstd::std_specs::hash::group_hash_axioms;

    let n = data.len();
    let mut dict: std::collections::HashMap<u64, u32> = std::collections::HashMap::new();
    let mut next_code: u32 = 257;
    let mut has_elem = last.len() == 1;
    let mut elem: u32 = if has_elem {
        last[0] as u32
    } else {
        0
    };
    let mut compressed: Vec<u16> = Vec::with_capacity(size);
    let mut count: usize = 0;
    let ghost mut strs: Seq<Seq<u8>> = initial_strs();
    let ghost mut codes: Seq<int> = seq![];
    while start + count < n
        invariant
            start + count <= n,
            n == data@.len(),
            0 < size <= 0xFEFD,
            compressed@.len() < size,
            next_code == 257 + compressed@.len(),
            elem < next_code,
            elem != 256,
            forall|k: u64|
                #![trigger dict@[k]]
                dict@.contains_key(k) ==> {
                    &&& 257 <= dict@[k] < next_code
                    &&& (k / 256) < next_code
                    &&& strs[dict@[k] as int] == strs[(k / 256) as int] + seq![(k % 256) as u8]
                },
            forall|k: int| 0 <= k < compressed@.len() ==> compressed@[k] < 257 + size,
            count > 0 ==> has_elem,
            has_elem || count == 0,
            !has_elem ==> last@.len() == 0,
            last@.len() <= 1,
            has_elem && count == 0 ==> last@.len() == 1,
            count == 0 ==> compressed@.len() == 0,
            strs.len() == next_code,
            forall|i: int| 0 <= i < strs.len() ==> #[trigger] strs[i].len() > 0,
            forall|i: int| 0 <= i < 256 ==> #[trigger] strs[i] == seq![i as u8],
            codes == compressed@.map_values(|c: u16| c as int),
            forall|k: int| 0 <= k < codes.len() ==> 0 <= #[trigger] codes[k] < strs.len() && codes[k] != 256,
            decoder_follows(codes, strs),
            codes.len() >= 1 ==> has_elem && strs[strs.len() - 1] == strs[codes.last()]
                + seq![strs[elem as int][0]],
            codes.len() == 0 && has_elem ==> elem < 256,
            last@ + data@.subrange(start as int, start + count) == concat_codes(strs, codes) + (
            if has_elem {
                strs[elem as int]
            } else {
                seq![]
            }),
        decreases n - start - count,
    {
        let c = data[start + count];
        let ghost consumed0 = last@ + data@.subrange(start as int, start + count);
        if !has_elem {
            elem = c as u32;
            has_elem = true;
            proof {
                assert(concat_codes(strs, codes) =~= seq![]);
            }
        } else {
            let key = (elem as u64) * 256 + c as u64;
            assert(key / 256 == elem as u64 && key % 256 == c as u64) by (nonlinear_arith)
                requires
                    key == (elem as u64) * 256 + c as u64,
                    c < 256,
            ;
            match dict.get(&key) {
                Some(code) => {
                    elem = *code;
                },
                None => {
                    let ghost v = elem as int;
                    proof {
                        lemma_emit(codes, strs, v, c);
                        lemma_concat_push(strs, codes, v);
                        assert(strs.push(strs[v] + seq![c]).take(strs.len() as int) =~= strs);
                        lemma_concat_extend(strs, strs.push(strs[v] + seq![c]), codes.push(v));
                    }
                    compressed.push(elem as u16);
                    let ghost dict0 = dict@;
                    let ghost strs0 = strs;
                    dict.insert(key, next_code);
                    proof {
                        strs = strs.push(strs[v] + seq![c]);
                        assert forall|k: u64| #[trigger] dict@.contains_key(k) implies {
                            &&& 257 <= dict@[k] < next_code + 1
                            &&& (k / 256) < next_code + 1
                            &&& strs[dict@[k] as int] == strs[(k / 256) as int] + seq![
                                (k % 256) as u8
                            ]
                        } by {
                            if k != key {
                                assert(dict0.contains_key(k));
                                assert(dict@[k] == dict0[k]);
                                assert(strs[dict0[k] as int] == strs0[dict0[k] as int]);
                                assert(strs[(k / 256) as int] == strs0[(k / 256) as int]);
                            }
                        }
                        codes = codes.push(v);
                        assert(codes =~= compressed@.map_values(|c: u16| c as int));
                    }
                    next_code = next_code + 1;
                    elem = c as u32;
                },
            }
        }
        count += 1;
        proof {
            assert(last@ + data@.subrange(start as int, start + count) =~= consumed0.push(c));
        }
        if compressed.len() == size {
            let mut carry: Vec<u8> = Vec::new();
            carry.push(c);
            proof {
                assert(strs[elem as int] == seq![c]);
                let consumed = last@ + data@.subrange(start as int, start + count);
                assert(consumed.drop_last() =~= concat_codes(strs, codes));
            }
            return (count, compressed, carry);
        }
    }
    if has_elem {
        let ghost v = elem as int;
        proof {
            lemma_emit(codes, strs, v, 0u8);
            lemma_concat_push(strs, codes, v);
        }
        compressed.push(elem as u16);
        proof {
            codes = codes.push(v);
            assert(codes =~= compressed@.map_values(|c: u16| c as int));
            assert(strs.push(strs[v] + seq![0u8]).take(strs.len() as int) =~= strs);
            lemma_concat_extend(strs, strs.push(strs[v] + seq![0u8]), codes);
        }
    } else {
        proof {
            assert(concat_codes(strs, codes) =~= seq![]);
            assert(codes =~= seq![]);
        }
    }
    (count, compressed, Vec::new())
}

/// The codes of chunk `k` of LZW-A output `out`: its words, after the
/// words of the chunks before it.
pub open spec fn chunk_codes_a(out: Seq<u8>, chunks: Seq<ChunkInfo>, k: int) -> Seq<int> {
    words_at(out, 2 * sum_compressed(chunks.take(k)), chunks[k].size_compressed as int)
}

/// The bytes that chunk `k` of an LZW-A stream decodes to, when chunk `i`
/// consumed `logical[i]` input bytes: its consumed bytes, plus the byte the
/// chunk before it carried over, minus the byte it carries to the next one.
pub open spec fn a_chunk_range(data: Seq<u8>, logical: Seq<int>, k: int) -> Seq<u8> {
    data.subrange(
        sum_of(logical.take(k)) - if k == 0 {
            0int
        } else {
            1int
        },
        sum_of(logical.take(k + 1)) - if k == logical.len() - 1 {
            0int
        } else {
            1int
        },
    )
}

/// The bytes of chunk `k` of LZW-B output `out`.
pub open spec fn chunk_bytes_b(out: Seq<u8>, chunks: Seq<ChunkInfo>, k: int) -> Seq<u8> {
    out.subrange(sum_compressed(chunks.take(k)), sum_compressed(chunks.take(k + 1)))
}

proof fn lemma_sc_take(cs: Seq<ChunkInfo>, k: int)
    requires
        0 <= k < cs.len(),
    ensures
        sum_compressed(cs.take(k + 1)) == sum_compressed(cs.take(k)) + cs[k].size_compressed,
{
    assert(cs.take(k + 1).drop_last() =~= cs.take(k));
}

proof fn lemma_sc_le(cs: Seq<ChunkInfo>, m: int)
    requires
        0 <= m <= cs.len(),
    ensures
        0 <= sum_compressed(cs.take(m)) <= sum_compressed(cs),
    decreases cs.len() - m,
{
    if m == cs.len() {
        assert(cs.take(m) =~= cs);
    } else {
        lemma_sc_take(cs, m);
        lemma_sc_le(cs, m + 1);
    }
    lemma_sc_nonneg(cs.take(m));
}

proof fn lemma_sc_nonneg(cs: Seq<ChunkInfo>)
    ensures
        sum_compressed(cs) >= 0,
    decreases cs.len(),
{
    if cs.len() > 0 {
        lemma_sc_nonneg(cs.drop_last());
    }
}

proof fn lemma_sc_take_same(a: Seq<ChunkInfo>, b: Seq<ChunkInfo>, k: int)
    requires
        0 <= k <= a.len(),
        k <= b.len(),
        forall|m: int| 0 <= m < k ==> a[m].size_compressed == b[m].size_compressed,
    ensures
        sum_compressed(a.take(k)) == sum_compressed(b.take(k)),
{
    lemma_sum_compressed_same(a.take(k), b.take(k));
}

proof fn lemma_words_at_extend(s1: Seq<u8>, s2: Seq<u8>, p: int, n: int)
    requires
        0 <= p,
        0 <= n,
        p + 2 * n <= s1.len() <= s2.len(),
        s2.take(s1.len() as int) == s1,
    ensures
        words_at(s2, p, n) == words_at(s1, p, n),
{
    assert forall|m: int| 0 <= m < n implies #[trigger] u16_at(s2, p + 2 * m) == u16_at(s1, p + 2 * m) by {
        assert(s2[p + 2 * m] == s2.take(s1.len() as int)[p + 2 * m]);
        assert(s2[p + 2 * m + 1] == s2.take(s1.len() as int)[p + 2 * m + 1]);
    }
    assert(words_at(s2, p, n) =~= words_at(s1, p, n));
}

proof fn lemma_decode_a_same_sizes(
    s: Seq<u8>,
    pos: int,
    c1: Seq<ChunkInfo>,
    c2: Seq<ChunkInfo>,
    k: int,
)
    requires
        0 <= k <= c1.len(),
        k <= c2.len(),
        forall|m: int| 0 <= m < k ==> c1[m].size_compressed == c2[m].size_compressed,
    ensures
        decode_chunks_a(s, pos, c1, k) == decode_chunks_a(s, pos, c2, k),
    decreases k,
{
    if k > 0 {
        lemma_decode_a_same_sizes(s, pos, c1, c2, k - 1);
    }
}

proof fn lemma_decode_a_extend(
    s1: Seq<u8>,
    s2: Seq<u8>,
    pos: int,
    c1: Seq<ChunkInfo>,
    c2: Seq<ChunkInfo>,
    k: int,
)
    requires
        0 <= k <= c1.len(),
        k <= c2.len(),
        0 <= pos,
        forall|m: int| 0 <= m < k ==> c1[m].size_compressed == c2[m].size_compressed,
        s1.len() <= s2.len(),
        s2.take(s1.len() as int) == s1,
        decode_chunks_a(s1, pos, c1, k) is Ok,
    ensures
        decode_chunks_a(s2, pos, c2, k) == decode_chunks_a(s1, pos, c1, k),
        decode_chunks_a(s1, pos, c1, k)->Ok_0.1 <= s1.len() || k == 0,
        decode_chunks_a(s1, pos, c1, k)->Ok_0.1 >= pos,
    decreases k,
{
    if k > 0 {
        lemma_decode_a_extend(s1, s2, pos, c1, c2, k - 1);
        let p = decode_chunks_a(s1, pos, c1, k - 1)->Ok_0.1;
        let n = c1[k - 1].size_compressed as int;
        assert(words_at(s2, p, n) =~= words_at(s1, p, n)) by {
            assert forall|m: int| 0 <= m < n implies #[trigger] u16_at(s2, p + 2 * m) == u16_at(
                s1,
                p + 2 * m,
            ) by {
                assert(s2[p + 2 * m] == s2.take(s1.len() as int)[p + 2 * m]);
                assert(s2[p + 2 * m + 1] == s2.take(s1.len() as int)[p + 2 * m + 1]);
            }
        }
    }
}

/// Compresses `data` with LZW-A into chunks of at most `size` codes (0 means
/// the default of 0xFEFD). Returns the codes as little-endian words and
/// the chunk table.
pub fn compress(data: &[u8], size: usize) -> (r: (Vec<u8>, CompressionInfo))
    requires
        size <= 0xFEFD,
        data@.len() < usize::MAX,
    ensures
        r.1.chunk_count == r.1.chunks@.len(),
        r.1._total_size_raw == data@.len(),
        r.1.total_size_compressed == sum_compressed(r.1.chunks@),
        r.0@.len() == 2 * sum_compressed(r.1.chunks@),
        sum_raw(r.1.chunks@) == data@.len(),
        data@.len() > 0 ==> r.1.chunks@.len() >= 1,
        r.1.chunks@.len() <= data@.len() + 1,
        forall|k: int|
            0 <= k < r.1.chunks@.len() ==> r.1.chunks@[k].size_compressed <= if size == 0 {
                0xFEFD
            } else {
                size
            },
        exists|logical: Seq<int>|
            #![trigger quirk_sizes(logical)]
            {
                &&& logical.len() == r.1.chunks@.len()
                &&& sum_of(logical) == data@.len()
                &&& quirk_sizes(logical) == r.1.chunks@.map_values(|c: ChunkInfo| c.size_raw as int)
            },
        decode_chunks_a(r.0@, 0, r.1.chunks@, r.1.chunks@.len() as int) == Ok::<
            (Seq<u8>, int),
            CzError,
        >((data@, r.0@.len() as int)),
        exists|logical: Seq<int>|
            #![trigger sum_of(logical)]
            {
                &&& logical.len() == r.1.chunks@.len()
                &&& sum_of(logical) == data@.len()
                &&& quirk_sizes(logical) == r.1.chunks@.map_values(|c: ChunkInfo| c.size_raw as int)
                &&& forall|k: int|
                    0 <= k < logical.len() ==> #[trigger] lzw_decode(
                        chunk_codes_a(r.0@, r.1.chunks@, k),
                    ) == Some(a_chunk_range(data@, logical, k))
            },
{
    let size = if size == 0 {
        0xFEFD
    } else {
        size
    };
    let n = data.len();
    let mut offset: usize = 0;
    let mut last: Vec<u8> = Vec::new();
    let mut out: Vec<u8> = Vec::new();
    let mut chunks: Vec<ChunkInfo> = Vec::new();
    let mut total_c: usize = 0;
    let ghost mut logical: Seq<int> = seq![];
    assert(data@.take(0) =~= seq![]);
    while offset < n || last.len() > 0
        invariant
            offset <= n,
            n == data@.len(),
            n < usize::MAX,
            0 < size <= 0xFEFD,
            last@.len() <= 1,
            last@.len() == 1 ==> offset >= 1 && chunks@.len() >= 1,
            chunks@.len() == logical.len(),
            logical == chunks@.map_values(|c: ChunkInfo| c.size_raw as int),
            sum_of(logical) == offset,
            offset > 0 ==> chunks@.len() >= 1,
            out@.len() == 2 * sum_compressed(chunks@),
            total_c == sum_compressed(chunks@),
            total_c <= out@.len(),
            forall|k: int| 0 <= k < chunks@.len() ==> chunks@[k].size_compressed <= size,
            forall|k: int| 0 <= k < chunks@.len() ==> chunks@[k].size_raw <= n,
            chunks@.len() > 0 ==> chunks@[0].size_raw >= 1,
            chunks@.len() <= offset || (offset == n && last@.len() == 0 && chunks@.len() <= n + 1),
            last@.len() == 1 ==> last@[0] == data@[offset - 1],
            decode_chunks_a(out@, 0, chunks@, chunks@.len() as int) == Ok::<(Seq<u8>, int), CzError>(
                (
                    if last@.len() == 1 {
                        data@.take(offset as int).drop_last()
                    } else {
                        data@.take(offset as int)
                    },
                    out@.len() as int,
                ),
            ),
            chunks@.len() == 0 ==> last@.len() == 0,
            chunks@.len() >= 1 ==> last@.len() == 1 || offset == n,
            forall|k: int|
                0 <= k < chunks@.len() ==> #[trigger] lzw_decode(chunk_codes_a(out@, chunks@, k))
                    == Some(
                    data@.subrange(
                        sum_of(logical.take(k)) - if k == 0 {
                            0int
                        } else {
                            1int
                        },
                        sum_of(logical.take(k + 1)) - if k == chunks@.len() - 1 {
                            last@.len() as int
                        } else {
                            1int
                        },
                    ),
                ),
        decreases 2 * (n - offset) + last@.len(),
    {
        let ghost last0 = last@;
        let (count, part, next_last) = compress_lzw(data, offset, size, last);
        let ghost before = out@;
        let mut j: usize = 0;
        while j < part.len()
            invariant
                j <= part@.len(),
                out@.len() == before.len() + 2 * j,
                out@.take(before.len() as int) == before,
                forall|m: int| 0 <= m < j ==> #[trigger] u16_at(out@, before.len() + 2 * m) == part@[m],
            decreases part@.len() - j,
        {
            let ghost o = out@;
            push_u16(&mut out, part[j]);
            proof {
                assert forall|m: int| 0 <= m < j implies #[trigger] u16_at(out@, before.len() + 2 * m)
                    == u16_at(o, before.len() + 2 * m) by {
                    assert(out@[before.len() + 2 * m] == o[before.len() + 2 * m]);
                    assert(out@[before.len() + 2 * m + 1] == o[before.len() + 2 * m + 1]);
                }
                crate::bytes::lemma_u16_round_trip(part@[j as int]);
                assert(u16_at(out@, before.len() + 2 * j) == u16_at(u16_bytes(part@[j as int]), 0));
                assert forall|m: int| 0 <= m < j implies #[trigger] u16_at(out@, before.len() + 2 * m)
                    == part@[m] by {
                    assert(out@[before.len() + 2 * m] == o[before.len() + 2 * m]);
                    assert(out@[before.len() + 2 * m + 1] == o[before.len() + 2 * m + 1]);
                }
                assert(out@.take(before.len() as int) =~= before);
            }
            j += 1;
        }
        let ghost chunks0 = chunks@;
        let ghost logical_before = logical;
        let ghost decoded0 = if last0.len() == 1 {
            data@.take(offset as int).drop_last()
        } else {
            data@.take(offset as int)
        };
        proof {
            assert(chunks@.push(ChunkInfo { size_compressed: part@.len() as usize, size_raw: count }).drop_last() =~= chunks@);
            lemma_sum_of_push(logical, count as int);
            logical = logical.push(count as int);
        }
        let _out_len = out.len();
        chunks.push(ChunkInfo { size_compressed: part.len(), size_raw: count });
        proof {
            let k = chunks0.len() as int;
            lemma_decode_a_extend(before, out@, 0, chunks0, chunks@, k);
            assert(words_at(out@, before.len() as int, part@.len() as int) =~= part@.map_values(
                |c: u16| c as int,
            ));
            let consumed = last0 + data@.subrange(offset as int, offset + count);
            let newdec = if next_last@.len() == 1 {
                data@.take(offset + count).drop_last()
            } else {
                data@.take(offset + count)
            };
            let chunk = if next_last@.len() == 1 {
                consumed.drop_last()
            } else {
                consumed
            };
            assert(decoded0 + chunk =~= newdec);
            let cs = chunks@;
            assert forall|m: int| 0 <= m < k implies #[trigger] lzw_decode(chunk_codes_a(out@, cs, m))
                == Some(
                data@.subrange(
                    sum_of(logical.take(m)) - if m == 0 {
                        0int
                    } else {
                        1int
                    },
                    sum_of(logical.take(m + 1)) - 1int,
                ),
            ) by {
                assert(cs.take(m) =~= chunks0.take(m));
                assert(cs[m] == chunks0[m]);
                assert(logical.take(m) =~= logical_before.take(m));
                assert(logical.take(m + 1) =~= logical_before.take(m + 1));
                lemma_sc_take(chunks0, m);
                lemma_sc_le(chunks0, m + 1);
                lemma_sc_nonneg(chunks0.take(m));
                lemma_words_at_extend(
                    before,
                    out@,
                    2 * sum_compressed(chunks0.take(m)),
                    chunks0[m].size_compressed as int,
                );
                assert(chunk_codes_a(out@, cs, m) == chunk_codes_a(before, chunks0, m));
                if m == k - 1 {
                    assert(last0.len() == 1);
                }
            }
            assert(cs.take(k) =~= chunks0);
            assert(logical.take(k) =~= logical_before);
            assert(logical.take(k + 1) =~= logical);
            assert(chunk_codes_a(out@, cs, k) == words_at(
                out@,
                before.len() as int,
                part@.len() as int,
            ));
            if last0.len() == 1 {
                assert(k >= 1 || last0.len() == 0);
                assert(chunk =~= data@.subrange(
                    offset - 1,
                    offset + count - next_last@.len(),
                ));
            } else {
                assert(k == 0);
                assert(chunk =~= data@.subrange(offset as int, offset + count - next_last@.len()));
            }
        }
        total_c = total_c + part.len();
        offset = offset + count;
        last = next_last;
        assert(logical =~= chunks@.map_values(|c: ChunkInfo| c.size_raw as int));
    }
    let ghost logical0 = logical;
    let k = chunks.len();
    if k >= 2 {
        let first = chunks[0].size_raw - 1;
        let lastc = chunks[k - 1].size_raw + 1;
        let c0 = chunks[0].size_compressed;
        let cl = chunks[k - 1].size_compressed;
        let ghost before = chunks@;
        chunks.set(0, ChunkInfo { size_compressed: c0, size_raw: first });
        chunks.set(k - 1, ChunkInfo { size_compressed: cl, size_raw: lastc });
        proof {
            lemma_sum_compressed_same(before, chunks@);
            lemma_decode_a_same_sizes(out@, 0, before, chunks@, k as int);
            assert forall|m: int| 0 <= m < k implies #[trigger] chunk_codes_a(out@, chunks@, m)
                == chunk_codes_a(out@, before, m) by {
                lemma_sc_take_same(before, chunks@, m);
            }
        }
    }
    proof {
        assert(data@.take(n as int) =~= data@);
        assert forall|m: int| 0 <= m < logical0.len() implies #[trigger] lzw_decode(
            chunk_codes_a(out@, chunks@, m),
        ) == Some(a_chunk_range(data@, logical0, m)) by {}
        lemma_sums_of_chunks(chunks@);
        assert(quirk_sizes(logical0) =~= chunks@.map_values(|c: ChunkInfo| c.size_raw as int));
        if k >= 2 {
            lemma_sum_of_update(logical0, 0, logical0[0] - 1);
            lemma_sum_of_update(
                logical0.update(0, logical0[0] - 1),
                k - 1,
                logical0[k - 1] + 1,
            );
        }
    }
    let info = CompressionInfo {
        chunk_count: k,
        total_size_compressed: total_c,
        _total_size_raw: n,
        chunks,
        length: 0,
    };
    (out, info)
}

proof fn lemma_sum_compressed_same(a: Seq<ChunkInfo>, b: Seq<ChunkInfo>)
    requires
        a.len() == b.len(),
        forall|k: int| 0 <= k < a.len() ==> a[k].size_compressed == b[k].size_compressed,
    ensures
        sum_compressed(a) == sum_compressed(b),
    decreases a.len(),
{
    if a.len() > 0 {
        lemma_sum_compressed_same(a.drop_last(), b.drop_last());
    }
}

/// The number of value bits of an LZW-B code.
pub open spec fn code_width(c: int) -> nat {
    if c > 0x7FFF {
        18
    } else {
        15
    }
}

/// The bits of one LZW-B code: its flag, then its value.
pub open spec fn one_code_bits(c: int) -> Seq<bool> {
    seq![c > 0x7FFF] + Seq::new(code_width(c), |j: int| value_bit(c as u64, j))
}

/// The bits of a sequence of LZW-B codes, one after another.
pub open spec fn code_bits(codes: Seq<int>) -> Seq<bool>
    decreases codes.len(),
{
    if codes.len() == 0 {
        seq![]
    } else {
        code_bits(codes.drop_last()) + one_code_bits(codes.last())
    }
}

/// A chunk buffer of `total` bits: eight zero bits, the codes' bits, zeros.
pub open spec fn stream_bits(codes: Seq<int>, total: int) -> Seq<bool> {
    Seq::new(
        total as nat,
        |k: int|
            if 8 <= k < 8 + code_bits(codes).len() {
                code_bits(codes)[k - 8]
            } else {
                false
            },
    )
}

proof fn lemma_code_bits_prefix(codes: Seq<int>, i: int)
    requires
        0 <= i <= codes.len(),
    ensures
        code_bits(codes.take(i)).len() <= code_bits(codes).len(),
        code_bits(codes).take(code_bits(codes.take(i)).len() as int) == code_bits(codes.take(i)),
    decreases codes.len(),
{
    if i == codes.len() {
        assert(codes.take(i) =~= codes);
        assert(code_bits(codes).take(code_bits(codes).len() as int) =~= code_bits(codes));
    } else {
        let u = codes.drop_last();
        lemma_code_bits_prefix(u, i);
        assert(u.take(i) =~= codes.take(i));
        assert(code_bits(codes).take(code_bits(codes.take(i)).len() as int) =~= code_bits(
            u,
        ).take(code_bits(codes.take(i)).len() as int));
    }
}

proof fn lemma_code_value(c: int, bits: Seq<bool>, pos: int)
    requires
        0 <= c < 0x40000,
        0 <= pos,
        pos + code_width(c) <= bits.len(),
        forall|j: int| 0 <= j < code_width(c) ==> bits[pos + j] == #[trigger] value_bit(c as u64, j),
    ensures
        bits_value(bits, pos, code_width(c)) == c,
{
    let n = code_width(c);
    let w = crate::bitio::bits_written(bits, pos, c as u64, n);
    crate::bitio::lemma_read_after_write(bits, pos, c as u64, n);
    crate::bitio::lemma_bits_value_prefix(bits, w, pos, n);
    let v = c as u64;
    if n == 18 {
        assert(v & (((1u64 << 18u64) - 1u64) as u64) == v) by (bit_vector)
            requires
                v < 0x40000,
        ;
    } else {
        assert(v & (((1u64 << 15u64) - 1u64) as u64) == v) by (bit_vector)
            requires
                v <= 0x7FFF,
        ;
    }
}

proof fn lemma_parse_from(codes: Seq<int>, size: int, i: int)
    requires
        0 <= i <= codes.len(),
        forall|k: int| 0 <= k < codes.len() ==> 0 <= #[trigger] codes[k] < 0x40000,
        8 + code_bits(codes).len() <= 8 * size,
        8 * size < 16 + code_bits(codes).len(),
    ensures
        b_codes(stream_bits(codes, 8 * (size + 4)), 8 + code_bits(codes.take(i)).len() as int, size)
            == codes.skip(i),
    decreases codes.len() - i,
{
    let b = stream_bits(codes, 8 * (size + 4));
    let cb = code_bits(codes);
    let p = 8 + code_bits(codes.take(i)).len() as int;
    lemma_code_bits_prefix(codes, i);
    if i == codes.len() {
        assert(codes.take(i) =~= codes);
        assert(codes.skip(i) =~= seq![]);
        assert(!b[p]);
    } else {
        let c = codes[i];
        lemma_code_bits_prefix(codes, i + 1);
        assert(codes.take(i + 1).drop_last() =~= codes.take(i));
        let ob = one_code_bits(c);
        assert(code_bits(codes.take(i + 1)) == code_bits(codes.take(i)) + ob);
        let li = code_bits(codes.take(i)).len() as int;
        assert forall|j: int| 0 <= j < ob.len() implies b[p + j] == #[trigger] ob[j] by {
            assert(cb.take(li + ob.len())[li + j] == cb[li + j]);
            assert(code_bits(codes.take(i + 1))[li + j] == ob[j]);
        }
        assert(ob[0] == (c > 0x7FFF));
        assert(b[p] == ob[0]);
        assert forall|j: int| 0 <= j < code_width(c) implies b[p + 1 + j] == #[trigger] value_bit(
            c as u64,
            j,
        ) by {
            assert(ob[1 + j] == value_bit(c as u64, j));
            assert(b[p + (1 + j)] == ob[1 + j]);
        }
        lemma_code_value(c, b, p + 1);
        lemma_parse_from(codes, size, i + 1);
        assert(codes.skip(i) =~= seq![c] + codes.skip(i + 1));
    }
}

/// Whether LZW-B chunk `bytes` holds exactly `codes`: a zero sentinel byte,
/// then each code as its flag bit and its value in 15 bits (flag 0, codes
/// up to 0x7FFF) or 18 bits (flag 1), then zero bits up to a byte boundary.
pub open spec fn chunk_layout(bytes: Seq<u8>, codes: Seq<int>) -> bool {
    &&& bytes.len() == (8 + code_bits(codes).len() + 7) / 8
    &&& bits_of(bytes) == stream_bits(codes, 8 * bytes.len() as int)
}

/// Whether LZW-B chunk `bytes` is laid out as `chunk_layout` says for codes
/// that decode to `d`.
pub open spec fn b_chunk_holds(bytes: Seq<u8>, d: Seq<u8>) -> bool {
    exists|codes: Seq<int>| #[trigger] chunk_layout(bytes, codes) && lzw_decode(codes) == Some(d)
}

/// Writes one LZW-B code: flag 0 and 15 bits up to 0x7FFF, else flag 1
/// and 18 bits.
fn write_code(io: &mut BitIo, code: u32)
    requires
        old(io).wf(),
        code <= 0x3FFFF,
        old(io).position() + 19 <= 8 * old(io).buffer().len(),
    ensures
        final(io).wf(),
        final(io).buffer().len() == old(io).buffer().len(),
        final(io).position() == old(io).position() + 1 + code_width(code as int),
        final(io).size() == (final(io).position() + 7) / 8,
        final(io).bits() == Seq::new(
            old(io).bits().len(),
            |k: int|
                if old(io).position() <= k < old(io).position() + 1 + code_width(code as int) {
                    one_code_bits(code as int)[k - old(io).position()]
                } else {
                    old(io).bits()[k]
                },
        ),
{
    let ghost p = io.position();
    let ghost b0 = io.bits();
    if code > 0x7FFF {
        io.write_bit(1, 1);
        assert((1u64 >> 0u64) & 1u64 == 1u64) by (bit_vector);
        io.write_bit(code as u64, 18);
    } else {
        io.write_bit(0, 1);
        assert((0u64 >> 0u64) & 1u64 != 1u64) by (bit_vector);
        io.write_bit(code as u64, 15);
    }
    proof {
        io.lemma_bits_of_buffer();
        let n = code_width(code as int);
        let target = Seq::new(
            b0.len(),
            |k: int|
                if p <= k < p + 1 + n {
                    one_code_bits(code as int)[k - p]
                } else {
                    b0[k]
                },
        );
        assert(io.bits() =~= target);
    }
}

/// A buffer of `n` zero bytes.
fn zeros(n: usize) -> (r: Vec<u8>)
    ensures
        r@.len() == n,
        forall|k: int| 0 <= k < n ==> r@[k] == 0,
{
    let mut v: Vec<u8> = Vec::with_capacity(n);
    let mut i: usize = 0;
    while i < n
        invariant
            i <= n,
            v@.len() == i,
            forall|k: int| 0 <= k < i ==> v@[k] == 0,
        decreases n - i,
    {
        v.push(0u8);
        i += 1;
    }
    v
}

/// Encodes `data[start..]` as one LZW-B chunk: a zero sentinel byte, then
/// codes until the written size reaches `size` bytes or the codes would
/// no longer fit 18 bits. Returns the number of bytes of `data` encoded and
/// the chunk's bytes, which decode to exactly those bytes.
fn compress_lzw2(data: &[u8], start: usize, size: usize) -> (r: (usize, Vec<u8>))
    requires
        2 <= size <= 0xFFFF_FF00,
        start <= data@.len(),
    ensures
        start + r.0 <= data@.len(),
        start < data@.len() ==> r.0 >= 1,
        1 <= r.1@.len() <= size + 3,
        lzw_decode(chunk_b_codes(r.1@)) == Some(data@.subrange(start as int, start + r.0)),
        b_chunk_holds(r.1@, data@.subrange(start as int, start + r.0)),
{
    broadcast use vstd::std_specs::hash::group_hash_axioms;

    let n = data.len();
    let buf = zeros(size + 8);
    let mut io = BitIo::new(buf);
    let ghost total = 8 * (size + 8);
    proof {
        io.lemma_bits_of_buffer();
        assert forall|k: int| 0 <= k < total implies !#[trigger] io.bits()[k] by {
            let b = buf@[k / 8];
            let o = (k % 8) as u8;
            assert(b == 0);
            assert((0u8 >> o) & 1u8 != 1u8) by (bit_vector);
        }
    }
    io.write_bit(0, 8);
    proof {
        assert forall|j: int| 0 <= j < 8 implies !#[trigger] value_bit(0u64, j) by {
            let jj = j as u64;
            assert((0u64 >> jj) & 1u64 != 1u64) by (bit_vector);
        }
    }
    let mut dict: std::collections::HashMap<u64, u32> = std::collections::HashMap::new();
    let mut next_code: u32 = 257;
    let mut has_elem = false;
    let mut elem: u32 = 0;
    let mut count: usize = 0;
    let ghost mut strs: Seq<Seq<u8>> = initial_strs();
    let ghost mut codes: Seq<int> = seq![];
    proof {
        assert(io.bits() =~= stream_bits(codes, total));
    }
    while start + count < n
        invariant
            start + count <= n,
            n == data@.len(),
            2 <= size <= 0xFFFF_FF00,
            total == 8 * (size + 8),
            io.wf(),
            io.buffer().len() == size + 8,
            io.size() == (io.position() + 7) / 8,
            io.size() < size,
            io.position() == 8 + code_bits(codes).len(),
            io.bits() == stream_bits(codes, total),
            257 <= next_code < 0x40000,
            elem < next_code,
            elem != 256,
            forall|k: u64|
                #![trigger dict@[k]]
                dict@.contains_key(k) ==> {
                    &&& 257 <= dict@[k] < next_code
                    &&& (k / 256) < next_code
                    &&& strs[dict@[k] as int] == strs[(k / 256) as int] + seq![(k % 256) as u8]
                },
            count > 0 <==> has_elem,
            strs.len() == next_code,
            next_code == 257 + codes.len(),
            forall|i: int| 0 <= i < strs.len() ==> #[trigger] strs[i].len() > 0,
            forall|i: int| 0 <= i < 256 ==> #[trigger] strs[i] == seq![i as u8],
            forall|k: int|
                0 <= k < codes.len() ==> 0 <= #[trigger] codes[k] < strs.len() && codes[k] != 256,
            decoder_follows(codes, strs),
            codes.len() >= 1 ==> has_elem && strs[strs.len() - 1] == strs[codes.last()]
                + seq![strs[elem as int][0]],
            codes.len() == 0 && has_elem ==> elem < 256,
            data@.subrange(start as int, start + count) == concat_codes(strs, codes) + (
            if has_elem {
                strs[elem as int]
            } else {
                seq![]
            }),
        decreases n - start - count,
    {
        let c = data[start + count];
        let ghost consumed0 = data@.subrange(start as int, start + count);
        let ghost mut pushed = false;
        if !has_elem {
            elem = c as u32;
            has_elem = true;
            proof {
                assert(concat_codes(strs, codes) =~= seq![]);
            }
        } else {
            let key = (elem as u64) * 256 + c as u64;
            assert(key / 256 == elem as u64 && key % 256 == c as u64) by (nonlinear_arith)
                requires
                    key == (elem as u64) * 256 + c as u64,
                    c < 256,
            ;
            match dict.get(&key) {
                Some(code) => {
                    elem = *code;
                },
                None => {
                    let ghost v = elem as int;
                    let ghost bits0 = io.bits();
                    let ghost p0 = io.position();
                    proof {
                        lemma_emit(codes, strs, v, c);
                        lemma_concat_push(strs, codes, v);
                        assert(strs.push(strs[v] + seq![c]).take(strs.len() as int) =~= strs);
                        lemma_concat_extend(strs, strs.push(strs[v] + seq![c]), codes.push(v));
                        assert(p0 + 19 <= 8 * (size + 8));
                    }
                    write_code(&mut io, elem);
                    let ghost dict0 = dict@;
                    let ghost strs0 = strs;
                    dict.insert(key, next_code);
                    proof {
                        let codes2 = codes.push(v);
                        assert(codes2.drop_last() =~= codes);
                        assert(code_bits(codes2) == code_bits(codes) + one_code_bits(v));
                        assert(io.bits() =~= stream_bits(codes2, total));
                        strs = strs.push(strs[v] + seq![c]);
                        assert forall|k: u64| #[trigger] dict@.contains_key(k) implies {
                            &&& 257 <= dict@[k] < next_code + 1
                            &&& (k / 256) < next_code + 1
                            &&& strs[dict@[k] as int] == strs[(k / 256) as int] + seq![
                                (k % 256) as u8
                            ]
                        } by {
                            if k != key {
                                assert(dict0.contains_key(k));
                                assert(dict@[k] == dict0[k]);
                                assert(strs[dict0[k] as int] == strs0[dict0[k] as int]);
                                assert(strs[(k / 256) as int] == strs0[(k / 256) as int]);
                            }
                        }
                        codes = codes2;
                        pushed = true;
                    }
                    next_code = next_code + 1;
                    elem = c as u32;
                },
            }
        }
        count += 1;
        proof {
            assert(data@.subrange(start as int, start + count) =~= consumed0.push(c));
        }
        if io.byte_size() >= size || next_code == 0x40000 {
            proof {
                assert(pushed);
                assert(strs[elem as int] == seq![c]);
                assert(consumed0 =~= concat_codes(strs, codes));
            }
            count -= 1;
            let ghost pos = io.position();
            let bytes = io.bytes();
            proof {
                lemma_chunk_codes(io, bytes@, codes, total);
            }
            return (count, bytes);
        }
    }
    if has_elem {
        let ghost v = elem as int;
        proof {
            lemma_emit(codes, strs, v, 0u8);
            lemma_concat_push(strs, codes, v);
            assert(strs.push(strs[v] + seq![0u8]).take(strs.len() as int) =~= strs);
            lemma_concat_extend(strs, strs.push(strs[v] + seq![0u8]), codes.push(v));
        }
        write_code(&mut io, elem);
        proof {
            let codes2 = codes.push(v);
            assert(codes2.drop_last() =~= codes);
            assert(io.bits() =~= stream_bits(codes2, total));
            strs = strs.push(strs[v] + seq![0u8]);
            codes = codes2;
        }
    } else {
        proof {
            assert(concat_codes(strs, codes) =~= seq![]);
            assert(codes =~= seq![]);
        }
    }
    let bytes = io.bytes();
    proof {
        lemma_chunk_codes(io, bytes@, codes, total);
    }
    (count, bytes)
}

/// The bytes of a chunk buffer, cut at its byte size, parse back into the
/// codes written to it.
proof fn lemma_chunk_codes(io: BitIo, bytes: Seq<u8>, codes: Seq<int>, total: int)
    requires
        io.wf(),
        total == 8 * io.buffer().len(),
        io.bits() == stream_bits(codes, total),
        io.position() == 8 + code_bits(codes).len(),
        io.size() == (io.position() + 7) / 8,
        bytes == io.buffer().take(io.size()),
        forall|k: int| 0 <= k < codes.len() ==> 0 <= #[trigger] codes[k] < 0x40000,
    ensures
        chunk_b_codes(bytes) == codes,
        chunk_layout(bytes, codes),
{
    io.lemma_bits_of_buffer();
    let sz = bytes.len() as int;
    let padded = bytes + seq![0u8, 0u8, 0u8, 0u8];
    let st = stream_bits(codes, 8 * (sz + 4));
    assert(bits_of(padded) =~= st) by {
        assert forall|k: int| 0 <= k < 8 * (sz + 4) implies bits_of(padded)[k] == st[k] by {
            if k < 8 * sz {
                assert(padded[k / 8] == io.buffer()[k / 8]);
                assert(io.bits()[k] == byte_bit(io.buffer()[k / 8], k % 8));
            } else {
                let o = (k % 8) as u8;
                assert(padded[k / 8] == 0);
                assert((0u8 >> o) & 1u8 != 1u8) by (bit_vector);
            }
        }
    }
    lemma_parse_from(codes, sz, 0);
    assert(codes.take(0) =~= seq![]);
    assert(codes.skip(0) =~= codes);
    assert(bits_of(bytes) =~= stream_bits(codes, 8 * sz)) by {
        assert forall|k: int| 0 <= k < 8 * sz implies bits_of(bytes)[k] == stream_bits(
            codes,
            8 * sz,
        )[k] by {
            assert(bits_of(padded)[k] == st[k]);
            assert(padded[k / 8] == bytes[k / 8]);
        }
    }
}

proof fn lemma_decode_b_same_sizes(
    s: Seq<u8>,
    pos: int,
    c1: Seq<ChunkInfo>,
    c2: Seq<ChunkInfo>,
    k: int,
)
    requires
        0 <= k <= c1.len(),
        k <= c2.len(),
        forall|m: int| 0 <= m < k ==> c1[m].size_compressed == c2[m].size_compressed,
    ensures
        decode_chunks_b(s, pos, c1, k) == decode_chunks_b(s, pos, c2, k),
    decreases k,
{
    if k > 0 {
        lemma_decode_b_same_sizes(s, pos, c1, c2, k - 1);
    }
}

/// Decoding LZW-B chunks placed after `a` and followed by `b` gives the
/// same result as on the chunks alone, at positions moved by `a`'s length.
pub proof fn lemma_decode_b_shift(
    a: Seq<u8>,
    d: Seq<u8>,
    b: Seq<u8>,
    c1: Seq<ChunkInfo>,
    c2: Seq<ChunkInfo>,
    k: int,
)
    requires
        0 <= k <= c1.len(),
        k <= c2.len(),
        forall|m: int| 0 <= m < k ==> c1[m].size_compressed == c2[m].size_compressed,
        decode_chunks_b(d, 0, c1, k) is Ok,
    ensures
        decode_chunks_b(a + d + b, a.len() as int, c2, k) == Ok::<(Seq<u8>, int), CzError>(
            (
                decode_chunks_b(d, 0, c1, k)->Ok_0.0,
                decode_chunks_b(d, 0, c1, k)->Ok_0.1 + a.len(),
            ),
        ),
        0 <= decode_chunks_b(d, 0, c1, k)->Ok_0.1 <= d.len(),
    decreases k,
{
    if k > 0 {
        lemma_decode_b_shift(a, d, b, c1, c2, k - 1);
        let p = decode_chunks_b(d, 0, c1, k - 1)->Ok_0.1;
        let n = c1[k - 1].size_compressed as int;
        let s = a + d + b;
        if p + n <= d.len() {
            assert(s.subrange(p + a.len(), p + a.len() + n) =~= d.subrange(p, p + n));
        }
    }
}

/// Compresses `data` with LZW-B into chunks of about `size` bytes (0 means
/// the default of 0x87BDF). Returns the chunks' bytes and the chunk table.
pub fn compress2(data: &[u8], size: usize) -> (r: (Vec<u8>, CompressionInfo))
    requires
        size <= 0xFFFF_FF00,
        data@.len() < usize::MAX,
    ensures
        r.1.chunk_count == r.1.chunks@.len(),
        r.1._total_size_raw == data@.len(),
        r.1.total_size_compressed == sum_compressed(r.1.chunks@),
        r.0@.len() == sum_compressed(r.1.chunks@),
        sum_raw(r.1.chunks@) == data@.len(),
        data@.len() > 0 ==> r.1.chunks@.len() >= 1,
        r.1.chunks@.len() <= data@.len(),
        forall|k: int| 0 <= k < r.1.chunks@.len() ==> r.1.chunks@[k].size_compressed <= u32::MAX,
        decode_chunks_b(r.0@, 0, r.1.chunks@, r.1.chunks@.len() as int) == Ok::<
            (Seq<u8>, int),
            CzError,
        >((data@, r.0@.len() as int)),
        exists|logical: Seq<int>|
            #![trigger quirk_sizes(logical)]
            {
                &&& logical.len() == r.1.chunks@.len()
                &&& sum_of(logical) == data@.len()
                &&& quirk_sizes(logical) == r.1.chunks@.map_values(|c: ChunkInfo| c.size_raw as int)
                &&& forall|k: int|
                    0 <= k < logical.len() ==> #[trigger] b_chunk_holds(
                        chunk_bytes_b(r.0@, r.1.chunks@, k),
                        data@.subrange(sum_of(logical.take(k)), sum_of(logical.take(k + 1))),
                    )
            },
{
    // the sentinel byte alone fills a budget of one byte
    let size = if size == 0 {
        0x87BDF
    } else if size == 1 {
        2
    } else {
        size
    };
    let n = data.len();
    let mut offset: usize = 0;
    let mut out: Vec<u8> = Vec::new();
    let mut chunks: Vec<ChunkInfo> = Vec::new();
    let mut total_c: usize = 0;
    let ghost mut logical: Seq<int> = seq![];
    assert(data@.take(0) =~= seq![]);
    while offset < n
        invariant
            offset <= n,
            n == data@.len(),
            n < usize::MAX,
            2 <= size <= 0xFFFF_FF00,
            chunks@.len() == logical.len(),
            logical == chunks@.map_values(|c: ChunkInfo| c.size_raw as int),
            sum_of(logical) == offset,
            offset > 0 ==> chunks@.len() >= 1,
            out@.len() == sum_compressed(chunks@),
            total_c == sum_compressed(chunks@),
            forall|k: int| 0 <= k < chunks@.len() ==> chunks@[k].size_raw <= n,
            chunks@.len() > 0 ==> chunks@[0].size_raw >= 1,
            chunks@.len() <= offset,
            forall|k: int| 0 <= k < chunks@.len() ==> chunks@[k].size_compressed <= u32::MAX,
            decode_chunks_b(out@, 0, chunks@, chunks@.len() as int) == Ok::<(Seq<u8>, int), CzError>(
                (data@.take(offset as int), out@.len() as int),
            ),
            forall|k: int|
                0 <= k < chunks@.len() ==> #[trigger] b_chunk_holds(
                    chunk_bytes_b(out@, chunks@, k),
                    data@.subrange(sum_of(logical.take(k)), sum_of(logical.take(k + 1))),
                ),
        decreases n - offset,
    {
        let (count, part) = compress_lzw2(data, offset, size);
        let ghost before = out@;
        let ghost chunks0 = chunks@;
        let ghost logical_before = logical;
        push_all(&mut out, part.as_slice());
        let _out_len = out.len();
        proof {
            let k = chunks0.len() as int;
            let ci = ChunkInfo { size_compressed: part@.len() as usize, size_raw: count };
            lemma_decode_b_shift(seq![], before, part@, chunks0, chunks0.push(ci), k);
            assert(seq![] + before + part@ =~= out@);
            assert(out@.subrange(before.len() as int, (before.len() + part@.len()) as int) =~= part@);
            assert(data@.take(offset as int) + data@.subrange(offset as int, offset + count)
                =~= data@.take(offset + count));
            assert(chunks@.push(ChunkInfo { size_compressed: part@.len() as usize, size_raw: count }).drop_last() =~= chunks@);
            lemma_sum_of_push(logical, count as int);
            logical = logical.push(count as int);
        }
        chunks.push(ChunkInfo { size_compressed: part.len(), size_raw: count });
        proof {
            let k = chunks0.len() as int;
            let cs = chunks@;
            assert(logical_before =~= logical.take(k));
            assert forall|m: int| 0 <= m < k implies #[trigger] b_chunk_holds(
                chunk_bytes_b(out@, cs, m),
                data@.subrange(sum_of(logical.take(m)), sum_of(logical.take(m + 1))),
            ) by {
                assert(cs.take(m) =~= chunks0.take(m));
                assert(cs.take(m + 1) =~= chunks0.take(m + 1));
                assert(logical.take(m) =~= logical_before.take(m));
                assert(logical.take(m + 1) =~= logical_before.take(m + 1));
                lemma_sc_le(chunks0, m + 1);
                lemma_sc_le(chunks0, m);
                lemma_sc_take(chunks0, m);
                assert(chunk_bytes_b(out@, cs, m) =~= chunk_bytes_b(before, chunks0, m));
                assert(b_chunk_holds(
                    chunk_bytes_b(before, chunks0, m),
                    data@.subrange(sum_of(logical_before.take(m)), sum_of(logical_before.take(m + 1))),
                ));
            }
            assert(cs.take(k) =~= chunks0);
            lemma_sc_take(cs, k);
            assert(cs.take(k + 1) =~= cs);
            assert(logical.take(k + 1) =~= logical);
            assert(chunk_bytes_b(out@, cs, k) =~= part@);
        }
        total_c = total_c + part.len();
        offset = offset + count;
        assert(logical =~= chunks@.map_values(|c: ChunkInfo| c.size_raw as int));
    }
    let ghost logical0 = logical;
    let k = chunks.len();
    if k >= 2 {
        let first = chunks[0].size_raw - 1;
        let lastc = chunks[k - 1].size_raw + 1;
        let c0 = chunks[0].size_compressed;
        let cl = chunks[k - 1].size_compressed;
        let ghost before = chunks@;
        chunks.set(0, ChunkInfo { size_compressed: c0, size_raw: first });
        chunks.set(k - 1, ChunkInfo { size_compressed: cl, size_raw: lastc });
        proof {
            lemma_sum_compressed_same(before, chunks@);
            lemma_decode_b_same_sizes(out@, 0, before, chunks@, k as int);
            assert forall|m: int| 0 <= m < k implies #[trigger] chunk_bytes_b(out@, chunks@, m)
                == chunk_bytes_b(out@, before, m) by {
                lemma_sc_take_same(before, chunks@, m);
                lemma_sc_take_same(before, chunks@, m + 1);
            }
        }
    }
    proof {
        assert(data@.take(n as int) =~= data@);
        lemma_sums_of_chunks(chunks@);
        assert(quirk_sizes(logical0) =~= chunks@.map_values(|c: ChunkInfo| c.size_raw as int));
        if k >= 2 {
            lemma_sum_of_update(logical0, 0, logical0[0] - 1);
            lemma_sum_of_update(
                logical0.update(0, logical0[0] - 1),
                k - 1,
                logical0[k - 1] + 1,
            );
        }
    }
    let info = CompressionInfo {
        chunk_count: k,
        total_size_compressed: total_c,
        _total_size_raw: n,
        chunks,
        length: 0,
    };
    (out, info)
}

/// The chunk table's records lie at 8-byte steps, sizes as 32-bit words.
pub proof fn lemma_table_bytes(t: Seq<ChunkInfo>)
    ensures
        chunk_table_bytes(t).len() == 8 * t.len(),
        forall|k: int|
            0 <= k < t.len() ==> #[trigger] chunk_table_bytes(t).subrange(8 * k, 8 * k + 4)
                == u32_bytes(t[k].size_compressed as u32),
        forall|k: int|
            0 <= k < t.len() ==> #[trigger] chunk_table_bytes(t).subrange(8 * k + 4, 8 * k + 8)
                == u32_bytes(t[k].size_raw as u32),
    decreases t.len(),
{
    if t.len() > 0 {
        let u = t.drop_last();
        lemma_table_bytes(u);
        assert(chunk_table_bytes(t) == chunk_table_bytes(u) + u32_bytes(
            t.last().size_compressed as u32,
        ) + u32_bytes(t.last().size_raw as u32));
        assert forall|k: int| 0 <= k < t.len() implies #[trigger] chunk_table_bytes(t).subrange(
            8 * k,
            8 * k + 4,
        ) == u32_bytes(t[k].size_compressed as u32) by {
            if k < u.len() {
                assert(t[k] == u[k]);
                assert(chunk_table_bytes(t).subrange(8 * k, 8 * k + 4) =~= chunk_table_bytes(
                    u,
                ).subrange(8 * k, 8 * k + 4));
            } else {
                assert(chunk_table_bytes(t).subrange(8 * k, 8 * k + 4) =~= u32_bytes(
                    t[k].size_compressed as u32,
                ));
            }
        }
        assert forall|k: int| 0 <= k < t.len() implies #[trigger] chunk_table_bytes(t).subrange(
            8 * k + 4,
            8 * k + 8,
        ) == u32_bytes(t[k].size_raw as u32) by {
            if k < u.len() {
                assert(t[k] == u[k]);
                assert(chunk_table_bytes(t).subrange(8 * k + 4, 8 * k + 8) =~= chunk_table_bytes(
                    u,
                ).subrange(8 * k + 4, 8 * k + 8));
            } else {
                assert(chunk_table_bytes(t).subrange(8 * k + 4, 8 * k + 8) =~= u32_bytes(
                    t[k].size_raw as u32,
                ));
            }
        }
    }
}

/// A word whose bytes stand at `q` is read back there.
pub proof fn lemma_u32_at_bytes(s: Seq<u8>, q: int, v: u32)
    requires
        0 <= q,
        q + 4 <= s.len(),
        s.subrange(q, q + 4) == u32_bytes(v),
    ensures
        u32_at(s, q) == v,
{
    crate::bytes::lemma_u32_round_trip(v);
    assert(s[q] == s.subrange(q, q + 4)[0]);
    assert(s[q + 1] == s.subrange(q, q + 4)[1]);
    assert(s[q + 2] == s.subrange(q, q + 4)[2]);
    assert(s[q + 3] == s.subrange(q, q + 4)[3]);
}

/// Decoding chunks placed after other bytes gives the same result, at
/// positions moved by the length of those bytes.
pub proof fn lemma_decode_a_shift(a: Seq<u8>, d: Seq<u8>, c1: Seq<ChunkInfo>, c2: Seq<ChunkInfo>, k: int)
    requires
        0 <= k <= c1.len(),
        k <= c2.len(),
        forall|m: int| 0 <= m < k ==> c1[m].size_compressed == c2[m].size_compressed,
        decode_chunks_a(d, 0, c1, k) is Ok,
    ensures
        decode_chunks_a(a + d, a.len() as int, c2, k) == Ok::<(Seq<u8>, int), CzError>(
            (
                decode_chunks_a(d, 0, c1, k)->Ok_0.0,
                decode_chunks_a(d, 0, c1, k)->Ok_0.1 + a.len(),
            ),
        ),
        decode_chunks_a(d, 0, c1, k)->Ok_0.1 <= d.len(),
        decode_chunks_a(d, 0, c1, k)->Ok_0.1 >= 0,
    decreases k,
{
    if k > 0 {
        lemma_decode_a_shift(a, d, c1, c2, k - 1);
        let p = decode_chunks_a(d, 0, c1, k - 1)->Ok_0.1;
        let n = c1[k - 1].size_compressed as int;
        let s = a + d;
        assert(words_at(s, p + a.len(), n) =~= words_at(d, p, n)) by {
            assert forall|m: int| 0 <= m < n implies #[trigger] u16_at(s, p + a.len() + 2 * m)
                == u16_at(d, p + 2 * m) by {
                assert(s[p + a.len() + 2 * m] == d[p + 2 * m]);
                assert(s[p + a.len() + 2 * m + 1] == d[p + 2 * m + 1]);
            }
        }
    }
}

} // verus!
