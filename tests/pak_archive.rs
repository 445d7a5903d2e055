use luca_system::pak::{Pak, PakError};
use luca_system::pak_entry::EntryType;

fn le32(out: &mut Vec<u8>, v: u32) {
    out.extend_from_slice(&v.to_le_bytes());
}

/// Builds a PAK with the given entry payloads, blocks of `block_size`
/// bytes, and optionally a subdirectory and names.
fn build_pak(block_size: u32, datas: &[Vec<u8>], names: Option<(&str, &[&str])>) -> Vec<u8> {
    let count = datas.len() as u32;
    let flags: u32 = if names.is_some() { 0x200 } else { 0 };
    let data_offset = block_size;
    let mut offsets = Vec::new();
    let mut next = data_offset / block_size;
    for d in datas {
        offsets.push(next);
        next += (d.len() as u32).div_ceil(block_size);
    }
    let mut out = Vec::new();
    le32(&mut out, data_offset);
    le32(&mut out, count);
    le32(&mut out, 100);
    le32(&mut out, block_size);
    le32(&mut out, if names.is_some() { 1 } else { 0 });
    le32(&mut out, 0xAAAA_0001);
    le32(&mut out, 0xAAAA_0002);
    le32(&mut out, 0xAAAA_0003);
    le32(&mut out, flags);
    le32(&mut out, 0xDEAD_BEEF);
    for (o, d) in offsets.iter().zip(datas) {
        le32(&mut out, *o);
        le32(&mut out, d.len() as u32);
    }
    if let Some((dir, ns)) = names {
        out.extend_from_slice(dir.as_bytes());
        out.push(0);
        for n in ns {
            out.extend_from_slice(n.as_bytes());
            out.push(0);
        }
    }
    while out.len() < data_offset as usize {
        out.push(0x55);
    }
    for d in datas {
        out.extend_from_slice(d);
        while out.len() % block_size as usize != 0 {
            out.push(0);
        }
    }
    out
}

fn sample_datas() -> Vec<Vec<u8>> {
    vec![vec![1u8; 1000], vec![2u8; 3000], vec![3u8; 500]]
}

#[test]
fn pak_offsets_follow_block_size() {
    let bytes = build_pak(2048, &sample_datas(), None);
    let pak = Pak::decode(&bytes, String::from("sample.pak")).unwrap();
    let offsets: Vec<u32> = pak.entries().iter().map(|e| e.offset).collect();
    assert_eq!(offsets, vec![1, 2, 4]);
    assert_eq!(pak.entries()[1].len(), 3000);
    assert_eq!(pak.entries()[2].id(), 102);
    assert_eq!(pak.unknown_pre_data, vec![0xDEAD_BEEF]);
}

#[test]
fn pak_replace_moves_later_entries() {
    let bytes = build_pak(2048, &sample_datas(), None);
    let mut pak = Pak::decode(&bytes, String::from("sample.pak")).unwrap();
    pak.replace(0, &vec![9u8; 5000]).unwrap();
    let offsets: Vec<u32> = pak.entries().iter().map(|e| e.offset).collect();
    assert_eq!(offsets, vec![1, 4, 6]);
    assert_eq!(pak.entries()[0].len(), 5000);
    assert_eq!(pak.entries()[0].as_bytes(), &vec![9u8; 5000]);
}

#[test]
fn pak_replace_middle_keeps_earlier_offsets() {
    let bytes = build_pak(2048, &sample_datas(), None);
    let mut pak = Pak::decode(&bytes, String::from("sample.pak")).unwrap();
    pak.replace(1, &vec![7u8; 10]).unwrap();
    let offsets: Vec<u32> = pak.entries().iter().map(|e| e.offset).collect();
    assert_eq!(offsets, vec![1, 2, 3]);
}

#[test]
fn pak_replace_missing_index_is_rejected() {
    let bytes = build_pak(2048, &sample_datas(), None);
    let mut pak = Pak::decode(&bytes, String::from("sample.pak")).unwrap();
    assert_eq!(pak.replace(3, &[1, 2, 3]), Err(PakError::IndexError));
    assert_eq!(pak.replace_by_id(99, &[1]), Err(PakError::IndexError));
    assert_eq!(pak.replace_by_id(103, &[1]), Err(PakError::IndexError));
    assert_eq!(pak.replace_by_name(String::from("nope"), &[1]), Err(PakError::IndexError));
    let offsets: Vec<u32> = pak.entries().iter().map(|e| e.offset).collect();
    assert_eq!(offsets, vec![1, 2, 4]);
}

#[test]
fn pak_replace_by_id_finds_entry() {
    let bytes = build_pak(2048, &sample_datas(), None);
    let mut pak = Pak::decode(&bytes, String::from("sample.pak")).unwrap();
    pak.replace_by_id(100, &vec![4u8; 4097]).unwrap();
    let offsets: Vec<u32> = pak.entries().iter().map(|e| e.offset).collect();
    assert_eq!(offsets, vec![1, 4, 6]);
    assert!(pak.get_entry_by_id(102).is_some());
    assert!(pak.get_entry_by_id(103).is_none());
    assert!(pak.get_entry_by_id(5).is_none());
}

#[test]
fn pak_encode_reproduces_input() {
    let bytes = build_pak(2048, &sample_datas(), None);
    let pak = Pak::decode(&bytes, String::from("sample.pak")).unwrap();
    let mut out = Vec::new();
    pak.encode(&mut out);
    assert_eq!(out, bytes);
    let again = Pak::decode(&out, String::from("sample.pak")).unwrap();
    assert_eq!(again.header(), pak.header());
    assert_eq!(again.entries().len(), 3);
    for (a, b) in again.entries().iter().zip(pak.entries()) {
        assert_eq!(a.as_bytes(), b.as_bytes());
        assert_eq!(a.offset, b.offset);
    }
}

#[test]
fn pak_names_survive_round_trip() {
    let names: [&str; 3] = ["bgm01", "voice_a", "logo"];
    let bytes = build_pak(2048, &sample_datas(), Some(("sound", &names)));
    let pak = Pak::decode(&bytes, String::from("named.pak")).unwrap();
    assert_eq!(pak.subdirectory, Some(b"sound".to_vec()));
    assert_eq!(pak.entries()[1].name(), Some(String::from("voice_a")));
    assert!(pak.contains_name("logo"));
    assert!(!pak.contains_name("log"));
    assert_eq!(pak.get_entry_by_name("logo").unwrap().index(), 2);
    let mut out = Vec::new();
    pak.encode(&mut out);
    assert_eq!(out, bytes);
    let again = Pak::decode(&out, String::from("named.pak")).unwrap();
    let got: Vec<Option<Vec<u8>>> = again.entries().iter().map(|e| e.name.clone()).collect();
    assert_eq!(
        got,
        vec![Some(b"bgm01".to_vec()), Some(b"voice_a".to_vec()), Some(b"logo".to_vec())]
    );
}

#[test]
fn pak_replace_by_name_and_reencode() {
    let names: [&str; 3] = ["bgm01", "voice_a", "logo"];
    let bytes = build_pak(2048, &sample_datas(), Some(("sound", &names)));
    let mut pak = Pak::decode(&bytes, String::from("named.pak")).unwrap();
    pak.replace_by_name(String::from("voice_a"), &vec![8u8; 2049]).unwrap();
    let mut out = Vec::new();
    pak.encode(&mut out);
    let again = Pak::decode(&out, String::from("named.pak")).unwrap();
    let offsets: Vec<u32> = again.entries().iter().map(|e| e.offset).collect();
    assert_eq!(offsets, vec![1, 2, 4]);
    assert_eq!(again.entries()[1].as_bytes(), &vec![8u8; 2049]);
    assert_eq!(again.entries()[2].as_bytes(), &vec![3u8; 500]);
}

#[test]
fn pak_header_errors() {
    assert_eq!(Pak::decode(&[0u8; 10], String::new()).unwrap_err(), PakError::IoError);
    let mut bytes = build_pak(2048, &sample_datas(), None);
    // no word before the data region equals the first block offset
    bytes[36..2048].fill(0x77);
    assert_eq!(Pak::decode(&bytes, String::new()).unwrap_err(), PakError::HeaderError);
    let mut zero_block = build_pak(2048, &sample_datas(), None);
    zero_block[12..16].fill(0);
    assert_eq!(Pak::decode(&zero_block, String::new()).unwrap_err(), PakError::HeaderError);
    let truncated = build_pak(2048, &sample_datas(), None)[..5000].to_vec();
    assert_eq!(Pak::decode(&truncated, String::new()).unwrap_err(), PakError::IoError);
}

#[test]
fn pak_entry_types_and_display_names() {
    let mut ogg = b"OggS".to_vec();
    ogg.extend_from_slice(&[0u8; 20]);
    let mut oggpak = b"OGGPAK".to_vec();
    oggpak.extend_from_slice(&[1u8; 9]);
    oggpak.extend_from_slice(b"OggS-payload");
    let datas = vec![
        b"CZ3\0rest".to_vec(),
        b"RIFFxxxx".to_vec(),
        ogg,
        oggpak,
        b"MVT1".to_vec(),
        b"??".to_vec(),
    ];
    let bytes = build_pak(2048, &datas, None);
    let pak = Pak::decode(&bytes, String::new()).unwrap();
    let types: Vec<EntryType> = pak.entries().iter().map(|e| e.file_type()).collect();
    assert_eq!(
        types,
        vec![
            EntryType::CZ3,
            EntryType::WAV,
            EntryType::OGG,
            EntryType::OGGPAK,
            EntryType::MVT,
            EntryType::Unknown
        ]
    );
    assert_eq!(pak.entries()[0].display_name(), "100.cz3");
    assert_eq!(pak.entries()[1].display_name(), "101.wav");
    assert_eq!(pak.entries()[5].display_name(), "105");
    assert_eq!(pak.entries()[3].cloned_bytes_fixed(), b"OggS-payload".to_vec());
    assert_eq!(pak.entries()[2].cloned_bytes_fixed().len(), 24);
    assert_eq!(EntryType::OGGPAK.extension(), ".oggpak");
    assert!(!pak.entries()[0].is_empty());

    let names: [&str; 1] = ["theme"];
    let named = build_pak(2048, &[b"OggSabc".to_vec()], Some(("", &names)));
    let pak = Pak::decode(&named, String::new()).unwrap();
    assert_eq!(pak.entries()[0].display_name(), "theme.ogg");
}

#[test]
fn pak_replace_last_entry_keeps_others() {
    let bytes = build_pak(2048, &sample_datas(), None);
    let mut pak = Pak::decode(&bytes, String::from("sample.pak")).unwrap();
    pak.replace(2, &vec![6u8; 9000]).unwrap();
    let offsets: Vec<u32> = pak.entries().iter().map(|e| e.offset).collect();
    assert_eq!(offsets, vec![1, 2, 4]);
    assert_eq!(pak.entries()[2].len(), 9000);
    assert_eq!(pak.entries()[0].as_bytes(), &vec![1u8; 1000]);
}
