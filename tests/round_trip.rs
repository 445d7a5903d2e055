use luca_system::common::CzVersion;
use luca_system::dynamic::CzFile;

/// A deterministic RGBA test picture: smooth gradients with some noise and
/// a few flat areas, so that every code path of the codecs is exercised.
fn test_image(width: u16, height: u16, seed: u32) -> Vec<u8> {
    let mut state = seed.wrapping_mul(2_654_435_761).wrapping_add(12_345);
    let mut out = Vec::with_capacity(width as usize * height as usize * 4);
    for y in 0..height as u32 {
        for x in 0..width as u32 {
            state ^= state << 13;
            state ^= state >> 17;
            state ^= state << 5;
            let noise = (state & 0x0F) as u8;
            let flat = (x / 37 + y / 23) % 5 == 0;
            let r = if flat { 200 } else { ((x * 3 + y) & 0xFF) as u8 ^ noise };
            let g = if flat { 10 } else { ((y * 2 + x / 2) & 0xFF) as u8 };
            let b = ((x ^ y) & 0xFF) as u8;
            let a = if (x + y) % 7 == 0 { 0x80 } else { 0xFF };
            out.extend_from_slice(&[r, g, b, a]);
        }
    }
    out
}

fn test_images() -> Vec<(u16, u16, Vec<u8>)> {
    vec![
        (128, 128, test_image(128, 128, 3)),
        (225, 225, test_image(225, 225, 23)),
        (2048, 810, test_image(2048, 810, 7)),
        (1123, 639, test_image(1123, 639, 11)),
    ]
}

fn round_trip(version: CzVersion) {
    for image in test_images() {
        let original_cz = CzFile::from_raw(version, image.0, image.1, image.2.clone());

        let cz_bytes = original_cz.encode().unwrap();

        let decoded_cz = CzFile::decode(&cz_bytes).unwrap();

        assert_eq!(original_cz.as_raw(), decoded_cz.as_raw());
    }
}

#[test]
fn cz0_round_trip() {
    round_trip(CzVersion::CZ0);
}

#[test]
fn cz1_round_trip() {
    round_trip(CzVersion::CZ1);
}

#[test]
fn cz2_round_trip() {
    round_trip(CzVersion::CZ2);
}

#[test]
fn cz3_round_trip() {
    round_trip(CzVersion::CZ3);
}

#[test]
fn cz4_round_trip() {
    round_trip(CzVersion::CZ4);
}
