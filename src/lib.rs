//! Codecs for the LUCA System engine's CZ# images and PAK archives.
//!
//! CZ# images (versions 0 to 4) are decoded from bytes into 32-bit RGBA
//! pixels and encoded back; PAK archives are decoded into entries, edited in
//! place, and encoded back.

pub mod bytes;
pub mod bitio;
pub mod common;
pub mod compression;
pub mod linediff;
pub mod color;
pub mod formats;
pub mod cz0;
pub mod cz1;
pub mod cz2;
pub mod cz3;
pub mod cz4;
pub mod dynamic;
pub mod pak_header;
pub mod pak_entry;
pub mod pak;
