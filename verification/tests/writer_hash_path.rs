//! The output buffer, the hashers and path resolution.
use akari::hash::{FxHasher, IdHasher};
use akari::path::get_full_dir;
use akari::writer::BinWriter;
use std::hash::Hasher;

#[test]
fn writer_builds_output() {
    let mut writer = BinWriter::new();
    assert!(writer.is_empty());
    writer.write_str("Hello");
    writer.write_byte(b' ');
    writer.write_bytes(b"World");
    assert_eq!(writer.len(), 11);
    assert!(writer.capacity() >= 11);
    assert_eq!(writer.as_str(), "Hello World");
    let output = writer.into_string().unwrap();
    assert_eq!(output, "Hello World");
}

#[test]
fn writer_clear_reserve_and_conversions() {
    let mut writer = BinWriter::with_capacity(4);
    writer.write_bytes(&[1, 2, 3]);
    writer.reserve(100);
    assert_eq!(writer.as_bytes(), &[1, 2, 3]);
    writer.as_bytes_mut().push(4);
    assert_eq!(writer.as_ref(), &[1, 2, 3, 4]);
    let v: Vec<u8> = writer.clone().into();
    assert_eq!(v, vec![1, 2, 3, 4]);
    assert_eq!(writer.clone().into_vec(), vec![1, 2, 3, 4]);
    writer.clear();
    assert!(writer.is_empty());
    assert_eq!(BinWriter::default().len(), 0);
}

#[test]
fn writer_into_string_rejects_invalid_utf8() {
    let mut writer = BinWriter::new();
    writer.write_bytes(&[0x66, 0xff]);
    assert!(writer.into_string().is_err());
}

#[test]
fn fx_hasher_mixes_words_and_bytes() {
    let seed: u64 = 0x517c_c1b7_2722_0a95;
    let mix = |h: u64, w: u64| (h.rotate_left(5) ^ w).wrapping_mul(seed);

    let mut h = FxHasher::default();
    assert_eq!(h.finish(), 0);
    h.write_u64(7);
    assert_eq!(h.finish(), mix(0, 7));

    let bytes: [u8; 15] = [1, 2, 3, 4, 5, 6, 7, 8, 9, 10, 11, 12, 13, 14, 15];
    let mut h = FxHasher::default();
    h.write(&bytes);
    let w8 = u64::from_ne_bytes(bytes[..8].try_into().unwrap());
    let w4 = u32::from_ne_bytes(bytes[8..12].try_into().unwrap()) as u64;
    let mut expected = mix(mix(0, w8), w4);
    for &b in &bytes[12..] {
        expected = mix(expected, b as u64);
    }
    assert_eq!(h.finish(), expected);
}

#[test]
fn id_hasher_spreads_narrow_inputs() {
    let mut h = IdHasher::default();
    assert_eq!(h.finish(), 0);
    h.write_u8(0xAB);
    assert_eq!(h.finish(), 0xABAB_ABAB_ABAB_ABAB);
    h.write_u16(0x1234);
    assert_eq!(h.finish(), 0x1234_1234_1234_1234);
    h.write_u32(0xDEAD_BEEF);
    assert_eq!(h.finish(), 0xDEAD_BEEF_DEAD_BEEF);
    h.write_u64(42);
    assert_eq!(h.finish(), 42);
    h.write_u128((5u128 << 64) | 3);
    assert_eq!(h.finish(), 6);
    h.write_i8(-1);
    assert_eq!(h.finish(), u64::MAX);
    h.write_i16(-2);
    assert_eq!(h.finish(), 0xFFFE_FFFE_FFFE_FFFE);
    h.write_i32(1);
    assert_eq!(h.finish(), 0x0000_0001_0000_0001);
    h.write_i64(-1);
    assert_eq!(h.finish(), u64::MAX);
    h.write_i128(-1);
    assert_eq!(h.finish(), 0);
    h.write_usize(9);
    assert_eq!(h.finish(), if usize::BITS == 64 { 9 } else { 0x0000_0009_0000_0009 });
    h.write_isize(9);
    assert_eq!(h.finish(), if usize::BITS == 64 { 9 } else { 0x0000_0009_0000_0009 });
}

#[test]
fn id_hasher_write_folds_bytes() {
    let mut h = IdHasher::default();
    h.write(&[1, 2]);
    assert_eq!(h.finish(), ((1u128 << 5) ^ 2) as u64);
}

#[test]
fn id_hasher_narrow_writes_are_injective() {
    let mut seen = std::collections::HashSet::new();
    for n in 0..=255u8 {
        let mut h = IdHasher::default();
        h.write_u8(n);
        assert_eq!(h.finish() as u8, n);
        assert!(seen.insert(h.finish()));
    }
}

#[test]
fn full_dir_absolute_paths_drop_leading_separators() {
    assert_eq!(get_full_dir("/a/b.html", "x/y.html"), "a/b.html");
    assert_eq!(get_full_dir("//\\\\c", "x"), "c");
    assert_eq!(get_full_dir("\\/d", "x"), "/d");
}

#[test]
fn full_dir_relative_paths_join_the_including_directory() {
    assert_eq!(get_full_dir("base.html", "pages/home.html"), "pages/base.html");
    assert_eq!(get_full_dir("base.html", "pages\\home.html"), "pages/base.html");
    assert_eq!(get_full_dir("base.html", "home.html"), "home.html/base.html");
    assert_eq!(get_full_dir("base.html", "a//home.html"), "a/base.html");
    assert_eq!(get_full_dir("base.html", "/home.html"), "/base.html");
    assert_eq!(get_full_dir("b", "a\\/c"), "a\\b");
}
