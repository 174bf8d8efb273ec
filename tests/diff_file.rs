use wplace_diff::checksum::chunk_checksum;
use wplace_diff::diff_file::{
    search_slot, search_step, DiffDataRange, DiffFile, DiffFileWriter, IndexEntry, IndexSearch, Probe, MAGIC, VERSION,
};
use wplace_diff::ErrorKind;

fn write_file(metadata: &[u8], entries: &[((u16, u16), Option<Vec<u8>>, u32)]) -> Vec<u8> {
    let mut w = DiffFileWriter::create(metadata);
    let placeholder = w.header();
    let mut payload = Vec::new();
    for (n, d, c) in entries {
        w.add_entry(*n, d.as_deref(), *c);
        if let Some(d) = d {
            payload.extend_from_slice(d);
        }
    }
    let parts = w.finalize();
    assert_eq!(parts.header.len(), placeholder.len());
    let mut file = parts.header;
    file.extend_from_slice(&payload);
    file.extend_from_slice(&parts.index);
    file
}

fn finalize_with(entries: &[((u16, u16), Option<Vec<u8>>, u32)]) -> Vec<u8> {
    write_file(b"{}", entries)
}

fn index_of(file: &[u8], f: &DiffFile) -> Vec<u8> {
    let start = f.index_pos as usize;
    file[start..start + f.index_len() as usize].to_vec()
}

#[test]
fn empty_delta_file_layout() {
    let buf = vec![1u8; 1_000_000];
    let crc = chunk_checksum(&buf);
    let file = finalize_with(&[((1, 2), None, crc)]);
    assert_eq!(&file[0..11], b"wplace-diff");
    assert_eq!(&file[0..11], &MAGIC);
    assert_eq!(u16::from_le_bytes([file[11], file[12]]), 3);
    assert_eq!(VERSION, 3);
    let index_pos = u64::from_le_bytes(file[13..21].try_into().unwrap());
    assert_eq!(u32::from_le_bytes(file[21..25].try_into().unwrap()), 1);
    assert_eq!(u32::from_le_bytes(file[25..29].try_into().unwrap()), 2);
    assert_eq!(&file[29..31], b"{}");
    // the payload region is empty
    assert_eq!(index_pos, 31);
    assert_eq!(file.len(), 31 + 24);
    let f = DiffFile::open(&file).unwrap();
    assert_eq!(f.entry_count, 1);
    assert_eq!(f.metadata, b"{}".to_vec());
    assert_eq!(f.payload_start, 31);
    let index = index_of(&file, &f);
    let entries = f.collect_index(&index).unwrap();
    assert_eq!(entries, vec![IndexEntry { x: 1, y: 2, checksum: crc, pos: 0, len: 0 }]);
    assert!(!entries[0].is_changed());
    assert_eq!(entries[0].range(), DiffDataRange::Unchanged);
}

#[test]
fn index_is_sorted_and_positions_follow_arrival() {
    let file = finalize_with(&[
        ((5, 1), Some(vec![9, 9, 9]), 11),
        ((0, 7), None, 12),
        ((0, 3), Some(vec![8]), 13),
        ((2, 0), Some(vec![7, 7]), 14),
    ]);
    let f = DiffFile::open(&file).unwrap();
    let entries = f.collect_index(&index_of(&file, &f)).unwrap();
    let keys: Vec<(u16, u16)> = entries.iter().map(|e| e.chunk_number()).collect();
    assert_eq!(keys, vec![(0, 3), (0, 7), (2, 0), (5, 1)]);
    for w in keys.windows(2) {
        assert!(w[0] < w[1]);
    }
    assert_eq!(entries[3], IndexEntry { x: 5, y: 1, checksum: 11, pos: 31, len: 3 });
    assert_eq!(entries[0], IndexEntry { x: 0, y: 3, checksum: 13, pos: 34, len: 1 });
    assert_eq!(entries[2], IndexEntry { x: 2, y: 0, checksum: 14, pos: 35, len: 2 });
    assert_eq!(entries[1].range(), DiffDataRange::Unchanged);
    assert_eq!(entries[2].range(), DiffDataRange::Changed { pos: 35, len: 2 });
    assert!(entries[2].range().is_changed());
    assert_eq!(&file[35..37], &[7, 7]);
    assert_eq!(f.open_chunk(&entries[2]), Ok((35, 2)));
}

#[test]
fn binary_search_finds_every_entry_and_nothing_else() {
    let mut list = Vec::new();
    for x in 0..20u16 {
        for y in (0..10u16).rev() {
            if (x + y) % 3 != 0 {
                list.push(((x, y), None, (x as u32) * 100 + y as u32));
            }
        }
    }
    let file = finalize_with(&list);
    let f = DiffFile::open(&file).unwrap();
    let index = index_of(&file, &f);
    for x in 0..21u16 {
        for y in 0..11u16 {
            let found = f.query_chunk(&index, (x, y)).unwrap();
            if x < 20 && y < 10 && (x + y) % 3 != 0 {
                let e = found.expect("entry present");
                assert_eq!((e.x, e.y), (x, y));
                assert_eq!(e.checksum, (x as u32) * 100 + y as u32);
            } else {
                assert!(found.is_none());
            }
        }
    }
}

#[test]
fn query_on_empty_index() {
    let file = finalize_with(&[]);
    let f = DiffFile::open(&file).unwrap();
    assert_eq!(f.entry_count, 0);
    assert_eq!(f.query_chunk(&[], (0, 0)), Ok(None));
}

#[test]
fn open_rejects_bad_magic() {
    let mut file = finalize_with(&[]);
    file[0] = b'W';
    assert!(matches!(DiffFile::open(&file), Err(ErrorKind::Magic)));
}

#[test]
fn open_rejects_other_versions() {
    let mut file = finalize_with(&[]);
    file[11] = 2;
    assert!(matches!(DiffFile::open(&file), Err(ErrorKind::UnsupportedVersion)));
}

#[test]
fn open_rejects_truncated_header() {
    let file = finalize_with(&[]);
    assert!(matches!(DiffFile::open(&file[..5]), Err(ErrorKind::Truncated)));
    assert!(matches!(DiffFile::open(&file[..20]), Err(ErrorKind::Truncated)));
    assert!(matches!(DiffFile::open(&file[..30]), Err(ErrorKind::Truncated)));
}

#[test]
fn open_rejects_malformed_metadata() {
    let file = write_file(b"{oops", &[((0, 0), None, 0)]);
    assert!(matches!(DiffFile::open(&file), Err(ErrorKind::Metadata)));
}

#[test]
fn truncated_index_is_rejected() {
    let file = finalize_with(&[((1, 1), None, 1), ((2, 2), None, 2)]);
    let f = DiffFile::open(&file).unwrap();
    let index = index_of(&file, &f);
    assert_eq!(f.query_chunk(&index[..40], (1, 1)), Err(ErrorKind::TruncatedIndex));
    assert_eq!(f.collect_index(&index[..24]), Err(ErrorKind::TruncatedIndex));
}

#[test]
fn payload_range_outside_region_is_rejected() {
    let file = finalize_with(&[((1, 1), Some(vec![1, 2, 3]), 1)]);
    let f = DiffFile::open(&file).unwrap();
    let bad = IndexEntry { x: 1, y: 1, checksum: 1, pos: f.index_pos - 1, len: 5 };
    assert_eq!(f.open_chunk(&bad), Err(ErrorKind::PayloadRange));
    let before = IndexEntry { x: 1, y: 1, checksum: 1, pos: 3, len: 1 };
    assert_eq!(f.open_chunk(&before), Err(ErrorKind::PayloadRange));
}

#[test]
fn placeholder_header_has_zero_index_fields() {
    let w = DiffFileWriter::create(b"{}");
    let h = w.header();
    assert_eq!(h.len(), 31);
    assert_eq!(&h[0..11], b"wplace-diff");
    assert_eq!(&h[11..13], &[3, 0]);
    assert!(h[13..25].iter().all(|b| *b == 0));
    assert_eq!(&h[25..31], &[2, 0, 0, 0, b'{', b'}']);
}

#[test]
fn diff_data_range_is_changed() {
    assert!(!DiffDataRange::Unchanged.is_changed());
    assert!(DiffDataRange::Changed { pos: 4, len: 0 }.is_changed());
    assert!(IndexEntry { x: 0, y: 0, checksum: 0, pos: 0, len: 3 }.is_changed());
}

#[test]
fn header_len_reads_metadata_length() {
    let file = write_file(b"{\"a\":1}", &[]);
    assert_eq!(wplace_diff::diff_file::header_len(&file[..29]), Some(36));
    assert_eq!(wplace_diff::diff_file::header_len(&file[..28]), None);
    let f = DiffFile::open(&file[..36]).unwrap();
    assert_eq!(f.metadata, b"{\"a\":1}".to_vec());
}

#[test]
fn duplicate_chunk_numbers_are_both_indexed() {
    let file = finalize_with(&[((3, 3), None, 1), ((1, 1), None, 2), ((3, 3), Some(vec![5]), 3)]);
    let f = DiffFile::open(&file).unwrap();
    let entries = f.collect_index(&index_of(&file, &f)).unwrap();
    let keys: Vec<(u16, u16)> = entries.iter().map(|e| e.chunk_number()).collect();
    assert_eq!(keys, vec![(1, 1), (3, 3), (3, 3)]);
    let found = f.query_chunk(&index_of(&file, &f), (3, 3)).unwrap().unwrap();
    assert_eq!(found.chunk_number(), (3, 3));
}

#[test]
fn largest_chunk_numbers() {
    let file = finalize_with(&[((65535, 65535), None, 9), ((0, 65535), None, 8), ((65535, 0), None, 7)]);
    let f = DiffFile::open(&file).unwrap();
    let index = index_of(&file, &f);
    let keys: Vec<(u16, u16)> = f.collect_index(&index).unwrap().iter().map(|e| e.chunk_number()).collect();
    assert_eq!(keys, vec![(0, 65535), (65535, 0), (65535, 65535)]);
    assert_eq!(f.query_chunk(&index, (65535, 65535)).unwrap().unwrap().checksum, 9);
}

#[test]
fn probe_steps_find_entries_slot_by_slot() {
    let list: Vec<((u16, u16), Option<Vec<u8>>, u32)> = (0..37u16).map(|i| ((i * 3, i % 5), None, i as u32)).collect();
    let file = finalize_with(&list);
    let f = DiffFile::open(&file).unwrap();
    for target in [(0u16, 0u16), (54, 3), (108, 1), (1, 1), (200, 0)] {
        let mut st = f.search_start();
        let mut probes = 0;
        let found = loop {
            let Some(m) = search_slot(st) else { break None };
            probes += 1;
            let off = f.slot_offset(m).unwrap() as usize;
            match search_step(st, &file[off..off + 24], target).unwrap() {
                Probe::Found(e) => break Some(e),
                Probe::Next(next) => st = next,
            }
        };
        assert!(probes <= 6);
        assert_eq!(found, f.query_chunk(&index_of(&file, &f), target).unwrap());
        assert_eq!(found.is_some(), target.0 % 3 == 0 && target.0 / 3 < 37 && target.1 == (target.0 / 3) % 5);
    }
    assert_eq!(search_step(IndexSearch { lo: 0, hi: 1 }, &[0u8; 23], (0, 0)), Err(ErrorKind::TruncatedIndex));
}
