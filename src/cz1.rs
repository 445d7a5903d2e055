//! CZ1: the bitmap is compressed with LZW-A.

use vstd::prelude::*;
use crate::bytes::{push_all, u32_bytes};
use crate::common::CzError;
use crate::compression::{
    ChunkInfo, chunk_table_bytes, compress, decode_chunks_a, decompress, get_chunk_info, sum_compressed,
    sum_raw,
};

verus! {

/// A chunked payload: the chunk count, the table, then the compressed data.
pub open spec fn chunked(table: Seq<ChunkInfo>, data: Seq<u8>) -> Seq<u8> {
    u32_bytes(table.len() as u32) + chunk_table_bytes(table) + data
}

/// A chunked LZW-A payload written after `o` decodes to what its chunks
/// decode to.
pub proof fn lemma_chunked_payload(o: Seq<u8>, table: Seq<ChunkInfo>, data: Seq<u8>, raw: Seq<u8>)
    requires
        table.len() <= u32::MAX,
        forall|k: int| 0 <= k < table.len() ==> table[k].size_compressed <= 0xFEFD,
        decode_chunks_a(data, 0, table, table.len() as int) == Ok::<(Seq<u8>, int), CzError>(
            (raw, data.len() as int),
        ),
    ensures
        payload_a(o + chunked(table, data), o.len() as int) == Ok::<Seq<u8>, CzError>(raw),
{
    let count = table.len() as int;
    let pos = o.len() as int;
    let head = o + u32_bytes(count as u32) + chunk_table_bytes(table);
    let s = o + chunked(table, data);
    assert(s =~= head + data);
    crate::compression::lemma_table_bytes(table);
    assert(s.subrange(pos, pos + 4) =~= u32_bytes(count as u32));
    crate::compression::lemma_u32_at_bytes(s, pos, count as u32);
    let parsed = crate::compression::chunks_at(s, pos + 4, count);
    assert forall|m: int| 0 <= m < count implies table[m].size_compressed
        == #[trigger] parsed[m].size_compressed by {
        let q = pos + 4 + 8 * m;
        assert(s.subrange(q, q + 4) =~= chunk_table_bytes(table).subrange(8 * m, 8 * m + 4));
        crate::compression::lemma_u32_at_bytes(s, q, table[m].size_compressed as u32);
    }
    assert(head.len() == pos + 4 + 8 * count);
    crate::compression::lemma_decode_a_shift(head, data, table, parsed, count);
}

/// The LZW-A payload at `pos`, from its chunk table.
pub open spec fn payload_a(s: Seq<u8>, pos: int) -> Result<Seq<u8>, CzError> {
    let count = crate::bytes::u32_at(s, pos);
    if pos + 4 > s.len() || pos + 4 + 8 * count > s.len() {
        Err(CzError::IoError)
    } else {
        let chunks = crate::compression::chunks_at(s, pos + 4, count as int);
        match decode_chunks_a(s, pos + 4 + 8 * count, chunks, count as int) {
            Ok((d, _)) => Ok(d),
            Err(e) => Err(e),
        }
    }
}

/// Decodes the LZW-A payload at `pos`.
pub fn decode(input: &[u8], pos: usize) -> (r: Result<Vec<u8>, CzError>)
    ensures
        r is Ok <==> payload_a(input@, pos as int) is Ok,
        r matches Ok(v) ==> payload_a(input@, pos as int) == Ok::<Seq<u8>, CzError>(v@),
        r matches Err(e) ==> (payload_a(input@, pos as int) matches Err(de) && crate::compression::reports(de, e)),
{
    let info = get_chunk_info(input, pos)?;
    decompress(input, &info)
}

/// Appends the LZW-A payload of `bitmap`: its chunk table, then its codes.
pub fn encode(output: &mut Vec<u8>, bitmap: &[u8]) -> (r: Result<(), CzError>)
    requires
        bitmap@.len() < u32::MAX,
    ensures
        r is Ok,
        final(output)@.len() >= old(output)@.len(),
        exists|table: Seq<ChunkInfo>, codes: Seq<u8>|
            #[trigger] chunked(table, codes) == final(output)@.subrange(
                old(output)@.len() as int,
                final(output)@.len() as int,
            ) && final(output)@.subrange(0, old(output)@.len() as int) == old(output)@ && sum_raw(
                table,
            ) == bitmap@.len() && codes.len() == 2 * sum_compressed(table),
        payload_a(final(output)@, old(output)@.len() as int) == Ok::<Seq<u8>, CzError>(bitmap@),
{
    let (data, info) = compress(bitmap, 0xFEFD);
    let ghost o = output@;
    info.write_into(output);
    push_all(output, data.as_slice());
    proof {
        assert(output@ =~= o + chunked(info.chunks@, data@));
        lemma_chunked_payload(o, info.chunks@, data@, bitmap@);
    }
    assert(output@.subrange(o.len() as int, output@.len() as int) =~= chunked(info.chunks@, data@));
    assert(output@.subrange(0, o.len() as int) =~= o);
    Ok(())
}

} // verus!
