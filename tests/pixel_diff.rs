use wplace_diff::checksum::{chunk_checksum, validate_chunk_checksum};
use wplace_diff::compress::zstd_decompress;
use wplace_diff::pixel_diff::{apply_chunk, bytes_equal, diff_chunk, diff_mask, diff_png_compressed};
use wplace_diff::{ErrorKind, CHUNK_LENGTH};

#[test]
fn diff_round_trip_small() {
    let base: Vec<u8> = vec![0, 1, 2, 3, 63, 10];
    let new: Vec<u8> = vec![0, 5, 2, 60, 0, 10];
    let mask = diff_mask(&base, &new);
    assert_eq!(mask, vec![0, 0x45, 0, 0x40 | 60, 0x40, 0]);
    let mut b = base.clone();
    apply_chunk(&mut b, &mask);
    assert_eq!(b, new);
}

#[test]
fn diff_ignores_stray_high_bits() {
    let base: Vec<u8> = vec![0x80 | 3, 0xc0 | 7];
    let new: Vec<u8> = vec![3, 8];
    assert_eq!(diff_mask(&base, &new), vec![0, 0x48]);
}

#[test]
fn apply_without_mutation_bits_is_identity() {
    let base: Vec<u8> = vec![7, 8, 9, 10];
    let mask: Vec<u8> = vec![0, 0x3f, 0x80, 0x12];
    let mut b = base.clone();
    apply_chunk(&mut b, &mask);
    assert_eq!(b, base);
}

#[test]
fn identity_diff_is_unchanged() {
    let b = vec![1u8; CHUNK_LENGTH];
    let d = diff_chunk(Some(&b), &b).unwrap();
    assert!(d.data.is_none());
    assert_eq!(d.checksum, chunk_checksum(&b));
}

#[test]
fn single_pixel_change() {
    let mut base = vec![0u8; CHUNK_LENGTH];
    base[42] = 5;
    let mut new = vec![0u8; CHUNK_LENGTH];
    new[42] = 9;
    let d = diff_chunk(Some(&base), &new).unwrap();
    let payload = d.data.expect("changed chunk has a payload");
    assert!(!payload.is_empty());
    let mask = zstd_decompress(&payload).unwrap();
    assert_eq!(mask.len(), CHUNK_LENGTH);
    assert_eq!(mask[42], 0x49);
    assert_eq!(mask.iter().filter(|b| **b != 0).count(), 1);
    let mut restored = base.clone();
    apply_chunk(&mut restored, &mask);
    assert_eq!(restored, new);
}

#[test]
fn absent_base_diffs_against_zero() {
    let new = vec![3u8; CHUNK_LENGTH];
    let d = diff_chunk(None, &new).unwrap();
    let mask = zstd_decompress(&d.data.unwrap()).unwrap();
    assert!(mask.iter().all(|b| *b == 0x43));
}

#[test]
fn compressed_diff_matches_mask() {
    let base = vec![1u8, 2, 3];
    let new = vec![1u8, 4, 3];
    let c = diff_png_compressed(&base, &new).unwrap();
    assert_ne!(c, diff_mask(&base, &new));
    assert_eq!(zstd_decompress(&c).unwrap(), vec![0, 0x44, 0]);
}

#[test]
fn zstd_round_trip() {
    let base = vec![0u8; 5000];
    let new: Vec<u8> = (0..5000u32).map(|i| (i % 7) as u8).collect();
    let c = diff_png_compressed(&base, &new).unwrap();
    assert!(c.len() < 5000);
    assert_eq!(zstd_decompress(&c).unwrap(), diff_mask(&base, &new));
}

#[test]
fn malformed_zstd_is_an_error() {
    assert_eq!(zstd_decompress(&[0xff, 0xff, 0xff]), Err(ErrorKind::Compress));
}

#[test]
fn crc32_cksum_check_value() {
    // CRC-32/CKSUM check value of the ASCII digits 1 to 9.
    assert_eq!(chunk_checksum(b"123456789"), 0x765E_7680);
}

#[test]
fn crc_is_stable_and_detects_changes() {
    let a = vec![1u8; CHUNK_LENGTH];
    let mut b = a.clone();
    assert_eq!(chunk_checksum(&a), chunk_checksum(&b));
    b[999_999] = 2;
    assert_ne!(chunk_checksum(&a), chunk_checksum(&b));
    assert_eq!(validate_chunk_checksum(&a, chunk_checksum(&a)), Ok(()));
    assert_eq!(validate_chunk_checksum(&b, chunk_checksum(&a)), Err(ErrorKind::Checksum));
}

#[test]
fn bytes_equal_compares_contents() {
    assert!(bytes_equal(&[1, 2, 3], &[1, 2, 3]));
    assert!(!bytes_equal(&[1, 2, 3], &[1, 2, 4]));
    assert!(!bytes_equal(&[1, 2], &[1, 2, 3]));
    assert!(bytes_equal(&[], &[]));
}
