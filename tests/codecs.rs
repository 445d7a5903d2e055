use luca_system::bitio::BitIo;
use luca_system::bytes::{bytes_to_word, word_to_bytes};
use luca_system::color::{get_palette, indexed_gen_palette, indexed_to_rgba, rgba_to_indexed, Palette};
use luca_system::common::{CommonHeader, CzError, CzVersion, ExtendedHeader};
use luca_system::compression::{compress, compress2, decompress, decompress2, get_chunk_info};
use luca_system::dynamic::CzFile;
use luca_system::linediff::{diff_rows, undiff_rows};
use luca_system::pak_header::PakFlags;

fn noise(len: usize, seed: u32) -> Vec<u8> {
    let mut state = seed | 1;
    (0..len)
        .map(|i| {
            state ^= state << 13;
            state ^= state >> 17;
            state ^= state << 5;
            if i % 5 == 0 { (i / 7) as u8 } else { (state & 0x3F) as u8 }
        })
        .collect()
}

#[test]
fn words_and_bytes() {
    assert_eq!(bytes_to_word(0x34, 0x12), 0x1234);
    assert_eq!(word_to_bytes(0xBEEF), [0xEF, 0xBE]);
}

#[test]
fn bitstream_reads_back_what_was_written() {
    let mut io = BitIo::new(vec![0u8; 16]);
    io.write_bit(0b1011, 4);
    assert_eq!(io.byte_size(), 1);
    io.write_bit(0x1FF, 9);
    assert_eq!(io.byte_size(), 2);
    assert_eq!(io.byte_offset(), 1);
    assert_eq!(io.bit_offset(), 5);
    io.write_bit(0xDEAD_BEEF_0123_4567, 64);
    io.write_bit(0x3_FFFF, 18);
    let bytes = io.bytes();
    assert_eq!(bytes.len(), 12);
    assert_eq!(bytes[0], 0b1111_1011);

    let mut io = BitIo::new(bytes);
    assert_eq!(io.read_bit(4), 0b1011);
    assert_eq!(io.read_bit(9), 0x1FF);
    assert_eq!(io.read_bit(64), 0xDEAD_BEEF_0123_4567);
    assert_eq!(io.read_bit(18), 0x3_FFFF);
}

#[test]
fn bitstream_keeps_higher_bits_of_a_byte() {
    let mut io = BitIo::new(vec![0xF0u8, 0xFF]);
    io.write_bit(0b0101, 4);
    let bytes = io.bytes();
    assert_eq!(bytes, vec![0xF5]);
    let mut io = BitIo::new(vec![0u8; 2]);
    io.write_bit(0xAB, 8);
    io.write_bit(0xCD, 8);
    assert_eq!(io.bytes(), vec![0xAB, 0xCD]);
}

#[test]
fn line_diff_inverts() {
    let m = noise(7 * 12, 5);
    for bh in 1..8usize {
        let d = diff_rows(&m, 7, 12, bh);
        assert_eq!(d.len(), 84);
        let back = undiff_rows(&d, 7, 12, bh);
        assert_eq!(back, m);
    }
    let d = diff_rows(&[10, 20, 5, 30], 2, 2, 2);
    assert_eq!(d, vec![10, 20, 251, 10]);
}

#[test]
fn palette_round_trip() {
    let colors: Vec<[u8; 4]> = (0..256u32).map(|i| [i as u8, (255 - i) as u8, (i * 7) as u8, 255]).collect();
    let palette = Palette { colors };
    let indices: Vec<u8> = (0..1024u32).map(|i| ((i * 37) % 256) as u8).collect();
    let rgba = indexed_to_rgba(&indices, &palette).unwrap();
    assert_eq!(rgba.len(), 4096);
    let back = rgba_to_indexed(&rgba, &palette).unwrap();
    assert_eq!(back, indices);
    assert_eq!(*back.iter().max().unwrap() as usize, palette.len() - 1);
    assert_eq!(indexed_to_rgba(&back, &palette).unwrap(), rgba);
}

#[test]
fn palette_errors_and_fallback() {
    let palette = Palette { colors: vec![[1, 2, 3, 4], [5, 6, 7, 8]] };
    assert_eq!(indexed_to_rgba(&[0, 2], &palette), Err(CzError::PaletteError));
    assert_eq!(rgba_to_indexed(&[5, 6, 7, 8, 9, 9, 9, 9], &palette).unwrap(), vec![1, 0]);
    let bytes = [0u8, 1, 2, 3, 4, 5, 6, 7, 8];
    let p = get_palette(&bytes, 1, 2).unwrap();
    assert_eq!(p.colors(), &vec![[1, 2, 3, 4], [5, 6, 7, 8]]);
    assert!(get_palette(&bytes, 2, 2).is_err());
}

#[test]
fn generated_palette_is_padded() {
    let header = CommonHeader::new(CzVersion::CZ1, 2, 2);
    let (idx, pal) = indexed_gen_palette(vec![0, 1, 1, 0], &[[9, 9, 9, 9], [1, 1, 1, 1]], &header).unwrap();
    assert_eq!(idx, vec![0, 1, 1, 0]);
    assert_eq!(pal.len(), 256);
    assert_eq!(pal[1], [1, 1, 1, 1]);
    assert_eq!(pal[2], [0, 0, 0, 0]);
    assert_eq!(
        indexed_gen_palette(vec![0, 1, 1], &[[9, 9, 9, 9]], &header),
        Err(CzError::BitmapFormat)
    );
}

#[test]
fn lzw_a_chunks_round_trip_with_quirk() {
    let data = noise(300_000, 9);
    let (bytes, info) = compress(&data, 0);
    assert!(info.chunk_count >= 2);
    let total: usize = info.chunks.iter().map(|c| c.size_raw).sum();
    assert_eq!(total, data.len());
    assert_eq!(bytes.len(), 2 * info.total_size_compressed);
    let mut file = Vec::new();
    info.write_into(&mut file);
    file.extend_from_slice(&bytes);
    let read = get_chunk_info(&file, 0).unwrap();
    assert_eq!(read.chunk_count, info.chunk_count);
    assert_eq!(decompress(&file, &read).unwrap(), data);
    // each chunk decodes to exactly the size recorded for it
    let mut pos = read.length;
    for c in &read.chunks {
        let one = luca_system::compression::CompressionInfo {
            chunk_count: 1,
            total_size_compressed: c.size_compressed,
            _total_size_raw: c.size_raw,
            chunks: vec![*c],
            length: pos,
        };
        assert_eq!(decompress(&file, &one).unwrap().len(), c.size_raw);
        pos += 2 * c.size_compressed;
    }
}

#[test]
fn lzw_a_small_chunks() {
    let data = b"TOBEORNOTTOBEORTOBEORNOT".to_vec();
    let (bytes, info) = compress(&data, 4);
    assert!(info.chunk_count >= 2);
    assert!(info.chunks.iter().all(|c| c.size_compressed <= 4));
    let mut file = Vec::new();
    info.write_into(&mut file);
    file.extend_from_slice(&bytes);
    let read = get_chunk_info(&file, 0).unwrap();
    assert_eq!(decompress(&file, &read).unwrap(), data);
    let (_, one) = compress(b"A", 0);
    assert_eq!(one.chunk_count, 1);
    assert_eq!(one.chunks[0].size_raw, 1);
    let (empty, none) = compress(&[], 0);
    assert!(empty.is_empty());
    assert_eq!(none.chunk_count, 0);
}

#[test]
fn lzw_b_uses_wide_codes() {
    let data = noise(2048 * 810 * 4 / 8, 77);
    let (bytes, info) = compress2(&data, 0);
    let total: usize = info.chunks.iter().map(|c| c.size_raw).sum();
    assert_eq!(total, data.len());
    let mut file = Vec::new();
    info.write_into(&mut file);
    file.extend_from_slice(&bytes);
    let read = get_chunk_info(&file, 0).unwrap();
    assert_eq!(decompress2(&file, &read).unwrap(), data);
    // find an 18-bit code in the first chunk
    let first = bytes[..info.chunks[0].size_compressed].to_vec();
    assert_eq!(first[0], 0);
    let limit = first.len();
    let mut io = BitIo::new([first, vec![0u8; 4]].concat());
    io.read_bit(8);
    let mut wide = 0;
    while io.byte_offset() * 8 + io.bit_offset() + 19 <= (limit + 4) * 8 {
        let flag = io.read_bit(1);
        let code = io.read_bit(if flag == 1 { 18 } else { 15 });
        if io.byte_offset() > limit {
            break;
        }
        if flag == 1 {
            assert!(code > 0x7FFF);
            wide += 1;
        }
    }
    assert!(wide > 0);
}

#[test]
fn lzw_decode_rejects_bad_codes() {
    // the chunk table says one chunk of two words; the second code is far
    // past the dictionary
    let mut file = Vec::new();
    file.extend_from_slice(&1u32.to_le_bytes());
    file.extend_from_slice(&2u32.to_le_bytes());
    file.extend_from_slice(&2u32.to_le_bytes());
    file.extend_from_slice(&65u16.to_le_bytes());
    file.extend_from_slice(&5000u16.to_le_bytes());
    let info = get_chunk_info(&file, 0).unwrap();
    assert!(matches!(decompress(&file, &info), Err(CzError::Corrupt(_))));
    let short = file[..file.len() - 1].to_vec();
    let info = get_chunk_info(&short, 0).unwrap();
    assert_eq!(decompress(&short, &info), Err(CzError::IoError));
    assert!(get_chunk_info(&file[..8], 0).is_err());
}

#[test]
fn header_bytes_are_stable() {
    let h = CommonHeader::new(CzVersion::CZ3, 640, 480);
    let mut bytes = Vec::new();
    assert_eq!(h.write_into(&mut bytes), 15);
    assert_eq!(
        bytes,
        vec![b'C', b'Z', b'3', 0, 15, 0, 0, 0, 0x80, 2, 0xE0, 1, 32, 0, 0]
    );
    assert_eq!(CommonHeader::from_bytes(&bytes).unwrap(), h);
    let file = CzFile::from_raw(CzVersion::CZ3, 640, 480, vec![0u8; 640 * 480 * 4]);
    assert_eq!(&file.encode().unwrap()[..15], &bytes[..]);
    let cz2 = CzFile::from_raw(CzVersion::CZ2, 1, 1, vec![1, 2, 3, 4]).encode().unwrap();
    assert_eq!(&cz2[..8], &[b'C', b'Z', b'2', 0, 0x12, 0, 0, 0]);
    assert_eq!(&cz2[15..18], &[0, 0, 0]);
}

#[test]
fn header_errors_and_depth_clamp() {
    assert_eq!(CommonHeader::from_bytes(b"PK\x03\x04"), Err(CzError::NotCzFile));
    assert_eq!(CommonHeader::from_bytes(b"CZ7\0"), Err(CzError::InvalidVersion(7)));
    assert_eq!(CommonHeader::from_bytes(b"CZ0\0\x0f"), Err(CzError::IoError));
    let mut bytes = Vec::new();
    CommonHeader::new(CzVersion::CZ0, 1, 1).write_into(&mut bytes);
    bytes[12] = 64;
    assert_eq!(CommonHeader::from_bytes(&bytes).unwrap().depth(), 8);
    let mut h = CommonHeader::new(CzVersion::CZ0, 1, 1);
    assert_eq!(h.set_version(9), Err(CzError::InvalidVersion(9)));
    assert!(h.set_version(4).is_ok());
    assert_eq!(h.version(), CzVersion::CZ4);
}

#[test]
fn extended_header_is_preserved() {
    let ext = ExtendedHeader::new().with_crop(100, 50).with_bounds(60, 110).with_offset(3, 4);
    let file = CzFile::from_raw(CzVersion::CZ1, 2, 1, vec![1, 2, 3, 4, 5, 6, 7, 8])
        .with_extended_header(ext);
    assert_eq!(file.header().length(), 36);
    let bytes = file.encode().unwrap();
    let back = CzFile::decode(&bytes).unwrap();
    let e = back.extended_header().unwrap();
    assert_eq!((e.crop_width, e.crop_height), (100, 50));
    assert_eq!((e.bounds_width, e.bounds_height), (110, 60));
    assert_eq!((e.offset_width, e.offset_height), (Some(3), Some(4)));
    assert_eq!(back.as_raw(), &vec![1, 2, 3, 4, 5, 6, 7, 8]);
    let mut again = Vec::new();
    back.header().write_into(&mut again);
    assert_eq!(&bytes[..15], &again[..]);
}

#[test]
fn indexed_image_round_trip() {
    let colors: Vec<[u8; 4]> = (0..256u32).map(|i| [i as u8, 3, (i / 2) as u8, 255]).collect();
    let palette = Palette { colors };
    let indices: Vec<u8> = (0..64 * 32u32).map(|i| (i % 256) as u8).collect();
    let rgba = indexed_to_rgba(&indices, &palette).unwrap();
    let mut file = CzFile::from_raw(CzVersion::CZ3, 64, 32, rgba.clone());
    let mut h = *file.header();
    h.set_depth(8);
    file.set_header(&h);
    file.set_palette(Some(palette.clone()));
    let bytes = file.encode().unwrap();
    let back = CzFile::decode(&bytes).unwrap();
    assert_eq!(back.as_raw(), &rgba);
    let p = back.palette().clone().unwrap();
    assert_eq!(p.len(), 256);
    let again = rgba_to_indexed(back.as_raw(), &p).unwrap();
    assert_eq!(again, indices);
    assert_eq!(*again.iter().max().unwrap() as usize, p.len() - 1);
    file.clear_palette();
    assert_eq!(file.encode(), Err(CzError::PaletteError));
}

#[test]
fn rgb_image_round_trip() {
    let rgba: Vec<u8> = (0..30 * 20).flat_map(|i: u32| [i as u8, (i >> 8) as u8, 7, 255]).collect();
    for v in [CzVersion::CZ0, CzVersion::CZ1, CzVersion::CZ2, CzVersion::CZ3] {
        let mut file = CzFile::from_raw(v, 30, 20, rgba.clone());
        let mut h = *file.header();
        h.set_depth(24);
        file.set_header(&h);
        let back = CzFile::decode(&file.encode().unwrap()).unwrap();
        assert_eq!(back.as_raw(), &rgba);
    }
}

#[test]
fn decode_errors() {
    let file = CzFile::from_raw(CzVersion::CZ5, 1, 1, vec![0, 0, 0, 0]);
    assert_eq!(file.encode(), Err(CzError::Unsupported(5)));
    let mut bytes = CzFile::from_raw(CzVersion::CZ0, 1, 1, vec![0, 0, 0, 0]).encode().unwrap();
    bytes[2] = b'5';
    assert_eq!(CzFile::decode(&bytes).unwrap_err(), CzError::Unsupported(5));
    let short = CzFile::from_raw(CzVersion::CZ0, 2, 2, vec![0u8; 16]).encode().unwrap();
    assert!(matches!(CzFile::decode(&short[..20]), Err(CzError::Corrupt(_))));
    let wrong = CzFile::from_raw(CzVersion::CZ0, 2, 2, vec![0u8; 15]);
    assert_eq!(wrong.encode(), Err(CzError::BitmapFormat));
}

#[test]
fn pak_flag_bits() {
    assert!(PakFlags(0x100).has_unknown_data1());
    assert!(!PakFlags(0x100).has_names());
    assert!(PakFlags(0x200).has_names());
    assert_eq!(PakFlags(0).extra_pre_count(), 1);
    assert_eq!(PakFlags(3).extra_pre_count(), 5);
    assert_eq!(PakFlags(4).extra_pre_count(), 7);
    assert_eq!(PakFlags(6).extra_pre_count(), 0);
}

#[test]
fn cz3_payload_has_several_chunks() {
    let (w, h) = (225u16, 225u16);
    let rgba: Vec<u8> = (0..w as u32 * h as u32)
        .flat_map(|i| {
            let n = i.wrapping_mul(2_654_435_761).rotate_left(13) ^ i.wrapping_mul(40503);
            [n as u8, (n >> 8) as u8, (n >> 16) as u8, (n >> 24) as u8 | 0x80]
        })
        .collect();
    let file = CzFile::from_raw(CzVersion::CZ3, w, h, rgba.clone());
    let bytes = file.encode().unwrap();
    let info = get_chunk_info(&bytes, 15).unwrap();
    assert!(info.chunk_count >= 2);
    let total: usize = info.chunks.iter().map(|c| c.size_raw).sum();
    assert_eq!(total, rgba.len());
    // each chunk decodes to exactly the size recorded for it
    let mut pos = info.length;
    for c in &info.chunks {
        let one = luca_system::compression::CompressionInfo {
            chunk_count: 1,
            total_size_compressed: c.size_compressed,
            _total_size_raw: c.size_raw,
            chunks: vec![*c],
            length: pos,
        };
        assert_eq!(decompress(&bytes, &one).unwrap().len(), c.size_raw);
        pos += 2 * c.size_compressed;
    }
    // the undone line diff gives back the rows
    let filtered = decompress(&bytes, &info).unwrap();
    let header = *file.header();
    assert_eq!(luca_system::cz3::line_diff(&header, &filtered), rgba);
    assert_eq!(CzFile::decode(&bytes).unwrap().as_raw(), &rgba);
}

#[test]
fn lzw_b_budget_of_one_byte() {
    let data = noise(3000, 5);
    let (bytes, info) = compress2(&data, 1);
    assert!(info.chunk_count >= 2);
    let mut file = Vec::new();
    info.write_into(&mut file);
    file.extend_from_slice(&bytes);
    let read = get_chunk_info(&file, 0).unwrap();
    assert_eq!(decompress2(&file, &read).unwrap(), data);
}

#[test]
fn extended_header_follows_new_size() {
    let ext = ExtendedHeader::new().with_crop(100, 50).with_bounds(40, 30).with_offset(7, 8);
    let adjusted = luca_system::common::auto_adjust_extended(ext, 100, 50, 64, 32);
    assert_eq!((adjusted.crop_width, adjusted.crop_height), (64, 32));
    assert_eq!((adjusted.bounds_width, adjusted.bounds_height), (30, 40));
    assert_eq!(adjusted.offset_width, Some(7));
}

#[test]
fn indexed_image_needs_full_palette() {
    let palette = Palette { colors: vec![[1, 2, 3, 4], [5, 6, 7, 8]] };
    let mut file = CzFile::from_raw(CzVersion::CZ1, 2, 1, vec![1, 2, 3, 4, 5, 6, 7, 8]);
    let mut h = *file.header();
    h.set_depth(8);
    file.set_header(&h);
    file.set_palette(Some(palette));
    assert_eq!(file.encode(), Err(CzError::PaletteError));
}

#[test]
fn rgb_image_with_extended_header_round_trip() {
    let rgba: Vec<u8> = (0..16 * 9u32).flat_map(|i| [i as u8, 3, (i * 5) as u8, 0x40]).collect();
    let ext = ExtendedHeader::new().with_crop(16, 9).with_bounds(9, 16);
    let mut file = CzFile::from_raw(CzVersion::CZ4, 16, 9, rgba.clone()).with_extended_header(ext);
    let back = CzFile::decode(&file.encode().unwrap()).unwrap();
    assert_eq!(back.as_raw(), &rgba);
    file = CzFile::from_raw(CzVersion::CZ3, 16, 9, rgba.clone()).with_extended_header(ext.with_offset(1, 2));
    let mut h = *file.header();
    h.set_depth(24);
    file.set_header(&h);
    let bytes = file.encode().unwrap();
    let back = CzFile::decode(&bytes).unwrap();
    let opaque: Vec<u8> = rgba.chunks(4).flat_map(|p| [p[0], p[1], p[2], 0xFF]).collect();
    assert_eq!(back.as_raw(), &opaque);
    assert_eq!(back.extended_header().unwrap().offset_height, Some(2));
    let again = back.encode().unwrap();
    assert_eq!(&again[..36], &bytes[..36]);
}
