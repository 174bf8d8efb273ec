use wplace_diff::canvas::Canvas;
use wplace_diff::checksum::chunk_checksum;
use wplace_diff::chunk_spec::{expand_chunks_range, parse_chunk_string, TilesRange};
use wplace_diff::diff_file::{DiffFile, DiffFileWriter, IndexEntry};
use wplace_diff::fetch::{chunk_number_of_path, collect_chunks, ChunksTarReader, Range};
use wplace_diff::indexed_png::{
    decode_png_image, read_chunk_png, read_png, write_chunk_png, write_png, DecodedPng, PixelMapper,
};
use wplace_diff::palette::{create_palette_lookup_table, global_color, pack_rgb};
use wplace_diff::pixel_diff::{diff_chunk, diff_mask, diff_png_compressed};
use wplace_diff::restore::{apply_entry, partition_entries, restore_step, ChunkStore};
use wplace_diff::snapshot::{extract_datetime, find_snapshot_name, select_diffs};
use wplace_diff::{ErrorKind, CHUNK_LENGTH};

fn write_file(entries: &[((u16, u16), Option<Vec<u8>>, u32)]) -> Vec<u8> {
    let mut w = DiffFileWriter::create(b"{}");
    let mut payload = Vec::new();
    for (n, d, c) in entries {
        w.add_entry(*n, d.as_deref(), *c);
        if let Some(d) = d {
            payload.extend_from_slice(d);
        }
    }
    let parts = w.finalize();
    let mut file = parts.header;
    file.extend_from_slice(&payload);
    file.extend_from_slice(&parts.index);
    file
}

#[test]
fn palette_round_trip_chunk() {
    let lut = create_palette_lookup_table();
    let b: Vec<u8> = (0..CHUNK_LENGTH).map(|i| (i % 64) as u8).collect();
    let png = write_chunk_png(&b).unwrap();
    assert_eq!(&png[1..4], b"PNG");
    assert_eq!(read_chunk_png(&png, &lut).unwrap(), b);
}

#[test]
fn palette_round_trip_small_image() {
    let lut = create_palette_lookup_table();
    let b: Vec<u8> = vec![0, 1, 2, 63, 5, 6];
    let png = write_png((3, 2), &b).unwrap();
    assert_eq!(read_png(&png, &lut).unwrap(), b);
    // a chunk must be 1000x1000
    assert_eq!(read_chunk_png(&png, &lut), Err(ErrorKind::Decode));
}

#[test]
fn write_png_rejects_wrong_length() {
    assert_eq!(write_png((3, 2), &[1, 2, 3]), Err(ErrorKind::Encode));
}

#[test]
fn read_png_rejects_garbage() {
    let lut = create_palette_lookup_table();
    assert_eq!(read_png(b"not a png", &lut), Err(ErrorKind::Decode));
}

#[test]
fn lookup_table_maps_global_colors() {
    let lut = create_palette_lookup_table();
    assert_eq!(lut.len(), 1 << 24);
    assert_eq!(lut[0], 1);
    assert_eq!(lut[pack_rgb(60, 60, 60) as usize], 2);
    assert_eq!(lut[pack_rgb(179, 185, 209) as usize], 63);
    assert_eq!(lut[pack_rgb(1, 2, 3) as usize], 255);
    for i in 1..64usize {
        assert_eq!(lut[global_color(i) as usize] as usize, i);
    }
}

#[test]
fn pixel_mapper_uses_local_palette_and_transparency() {
    let lut = create_palette_lookup_table();
    // local index 0: transparent, 1: (60,60,60), 2: (255,255,255), 3: not global
    let palette = [0u8, 0, 0, 60, 60, 60, 255, 255, 255, 1, 2, 3];
    let m = PixelMapper::new(&palette, Some(&[0u8]), &lut);
    assert_eq!(m.map(0), 0);
    assert_eq!(m.map(1), 2);
    assert_eq!(m.map(2), 6);
    assert_eq!(m.map(3), 255);
    assert_eq!(m.map(4), 255);
    let opaque = PixelMapper::new(&palette, None, &lut);
    assert_eq!(opaque.map(0), 1);
}

#[test]
fn apply_entry_over_absent_base_zero_fills() {
    let new = vec![3u8; CHUNK_LENGTH];
    let d = diff_chunk(None, &new).unwrap();
    let payload = d.data.unwrap();
    let e = IndexEntry { x: 5, y: 5, checksum: d.checksum, pos: 40, len: payload.len() as u64 };
    assert_eq!(apply_entry(None, &e, &payload, true).unwrap(), new);
}

#[test]
fn apply_entry_unchanged_needs_base() {
    let e = IndexEntry { x: 1, y: 2, checksum: 0, pos: 0, len: 0 };
    assert_eq!(apply_entry(None, &e, &[], true), Err(ErrorKind::AbsentChunk));
    let base = vec![7u8; CHUNK_LENGTH];
    assert_eq!(apply_entry(Some(base.clone()), &e, &[], true).unwrap(), base);
}

#[test]
fn tampered_payload_fails() {
    let base = vec![0u8; CHUNK_LENGTH];
    let mut new = base.clone();
    for i in 0..1000 {
        new[i * 997] = (i % 63 + 1) as u8;
    }
    let d = diff_chunk(Some(&base), &new).unwrap();
    let mut payload = d.data.unwrap();
    let mid = payload.len() / 2;
    payload[mid] ^= 0x55;
    let e = IndexEntry { x: 0, y: 0, checksum: d.checksum, pos: 40, len: payload.len() as u64 };
    let r = apply_entry(Some(base), &e, &payload, true);
    assert!(matches!(r, Err(ErrorKind::Compress) | Err(ErrorKind::Checksum) | Err(ErrorKind::DiffLength)));
}

#[test]
fn checksum_mismatch_and_disabled_check() {
    let base = vec![0u8; CHUNK_LENGTH];
    let new = vec![2u8; CHUNK_LENGTH];
    let d = diff_chunk(Some(&base), &new).unwrap();
    let payload = d.data.unwrap();
    let e = IndexEntry { x: 0, y: 0, checksum: d.checksum ^ 1, pos: 40, len: payload.len() as u64 };
    assert_eq!(apply_entry(Some(base.clone()), &e, &payload, true), Err(ErrorKind::Checksum));
    assert_eq!(apply_entry(Some(base), &e, &payload, false).unwrap(), new);
}

#[test]
fn short_mask_is_a_length_error() {
    let payload = diff_png_compressed(&[0u8; 10], &[1u8; 10]).unwrap();
    let e = IndexEntry { x: 0, y: 0, checksum: 0, pos: 40, len: payload.len() as u64 };
    let mut cur = vec![0u8; CHUNK_LENGTH];
    assert_eq!(restore_step(&mut cur, Some(e), &payload, false), Err(ErrorKind::DiffLength));
}

#[test]
fn range_restore_over_three_diffs() {
    // Chunks (10,20) and (10,21) over snapshots S0..S3, one diff file per step.
    let chunks = [(10u16, 20u16), (10u16, 21u16)];
    let mut snaps: Vec<Vec<Vec<u8>>> = Vec::new();
    for s in 0..4usize {
        let mut per = Vec::new();
        for (c, _) in chunks.iter().enumerate() {
            let mut b = vec![0u8; CHUNK_LENGTH];
            for i in 0..s * 10 {
                b[(i * 7919 + c * 13) % CHUNK_LENGTH] = ((i + s + c) % 63 + 1) as u8;
            }
            per.push(b);
        }
        snaps.push(per);
    }
    let mut files = Vec::new();
    for s in 1..4usize {
        let mut list = Vec::new();
        for (c, n) in chunks.iter().enumerate() {
            let d = diff_chunk(Some(&snaps[s - 1][c]), &snaps[s][c]).unwrap();
            list.push((*n, d.data, d.checksum));
        }
        files.push(write_file(&list));
    }
    let mut store = ChunkStore::new();
    for (c, n) in chunks.iter().enumerate() {
        store.put(*n, &snaps[0][c]).unwrap();
    }
    for (step, file) in files.iter().enumerate() {
        let f = DiffFile::open(file).unwrap();
        let start = f.index_pos as usize;
        let index = &file[start..start + f.index_len() as usize];
        for (c, n) in chunks.iter().enumerate() {
            let mut cur = store.get(*n).unwrap().unwrap();
            let entry = f.query_chunk(index, *n).unwrap();
            let payload: &[u8] = match entry {
                Some(e) if e.is_changed() => {
                    let (p, l) = f.open_chunk(&e).unwrap();
                    &file[p as usize..(p + l) as usize]
                }
                _ => &[],
            };
            restore_step(&mut cur, entry, payload, true).unwrap();
            assert_eq!(cur, snaps[step + 1][c]);
            store.put(*n, &cur).unwrap();
        }
    }
    assert!(store.get((0, 0)).unwrap().is_none());
}

#[test]
fn restore_step_keeps_chunk_missing_from_diff() {
    let mut cur = vec![4u8; CHUNK_LENGTH];
    restore_step(&mut cur, None, &[], true).unwrap();
    assert_eq!(cur, vec![4u8; CHUNK_LENGTH]);
}

#[test]
fn chunk_spec_single_and_list() {
    assert_eq!(parse_chunk_string("10-20,10-21").unwrap(), vec![(10, 20), (10, 21)]);
    assert_eq!(parse_chunk_string(" 1 - 2 ").unwrap(), vec![(1, 2)]);
}

#[test]
fn chunk_spec_rectangle() {
    assert_eq!(
        parse_chunk_string("2-3..1-2,7-7").unwrap(),
        vec![(1, 2), (1, 3), (2, 2), (2, 3), (7, 7)]
    );
    assert_eq!(expand_chunks_range((3, 1), (3, 1)), vec![(3, 1)]);
    assert_eq!(expand_chunks_range((0, 2), (1, 0)), vec![(0, 0), (0, 1), (0, 2), (1, 0), (1, 1), (1, 2)]);
}

#[test]
fn chunk_spec_ignores_unicode_whitespace() {
    assert_eq!(parse_chunk_string("1\u{a0}-\u{3000}2,\u{2003}3-4\u{85}").unwrap(), vec![(1, 2), (3, 4)]);
    assert_eq!(parse_chunk_string("1\u{2029}-2\t..\n3-\u{1680}3").unwrap(), vec![(1, 2), (1, 3), (2, 2), (2, 3), (3, 2), (3, 3)]);
    assert_eq!(parse_chunk_string("1\u{200b}-2"), Err(ErrorKind::Spec));
}

#[test]
fn chunk_spec_largest_numbers() {
    assert_eq!(parse_chunk_string("65535-65535").unwrap(), vec![(65535, 65535)]);
    assert_eq!(parse_chunk_string("65535-0..65534-0").unwrap(), vec![(65534, 0), (65535, 0)]);
}

#[test]
fn chunk_spec_malformed() {
    for s in ["", "1", "1-", "-1", "1-2,", "1-2..3", "1..2", "a-b", "1-2-3", "70000-1", "1-2..3-4..5-6"] {
        assert_eq!(parse_chunk_string(s), Err(ErrorKind::Spec), "{s}");
    }
}

#[test]
fn tiles_range_parse() {
    let r = TilesRange::parse_str("1,2,3,4").unwrap();
    assert_eq!(r, TilesRange { x_min: 1, x_max: 2, y_min: 3, y_max: 4 });
    assert!(r.contains((2, 3)));
    assert!(!r.contains((3, 3)));
    assert_eq!(TilesRange::parse_str("+1,2,3,4").unwrap().x_min, 1);
    assert!(TilesRange::parse_str("1,2,3").is_none());
    assert!(TilesRange::parse_str("1,2,3,4,5").is_none());
    assert!(TilesRange::parse_str("1,2,x,4").is_none());
    assert!(TilesRange::parse_str("1,2,3,65536").is_none());
}

#[test]
fn snapshot_names() {
    let s = "wplace-2025-08-09T20-01-14.231Z.tar";
    assert_eq!(find_snapshot_name(s.as_bytes()), Some(7));
    assert_eq!(extract_datetime(s).unwrap(), "2025-08-09T20-01-14.231Z");
    assert!(extract_datetime("2025-08-09T20-01-14.23Z").is_none());
}

#[test]
fn diff_selection() {
    let names: Vec<String> = ["a", "b", "c", "d"].iter().map(|s| s.to_string()).collect();
    assert_eq!(select_diffs(&names, &"b".to_string(), Some(&"d".to_string())), Ok((2, 4)));
    assert_eq!(select_diffs(&names, &"x".to_string(), None), Ok((0, 4)));
    assert_eq!(select_diffs(&names, &"a".to_string(), Some(&"a".to_string())), Ok((1, 1)));
    assert_eq!(select_diffs(&names, &"a".to_string(), Some(&"z".to_string())), Err(ErrorKind::Spec));
    assert_eq!(select_diffs(&names, &"d".to_string(), Some(&"b".to_string())), Err(ErrorKind::Spec));
    let dup: Vec<String> = ["a", "b", "a"].iter().map(|s| s.to_string()).collect();
    assert_eq!(select_diffs(&dup, &"x".to_string(), None), Err(ErrorKind::Spec));
    assert_eq!(select_diffs(&[], &"x".to_string(), None), Err(ErrorKind::Spec));
}

#[test]
fn canvas_copy_places_chunks() {
    let mut c = Canvas::from_chunk_list(&[(5, 7), (6, 8), (5, 8)]);
    assert_eq!(c.dimension, (2000, 2000));
    assert_eq!(c.min_chunk, (5, 7));
    let mut chunk = vec![0u8; CHUNK_LENGTH];
    chunk[0] = 9;
    chunk[999] = 10;
    chunk[1000 * 999 + 1] = 11;
    c.copy((6, 8), &chunk);
    assert_eq!(c.buf[1000 * 2000 + 1000], 9);
    assert_eq!(c.buf[1000 * 2000 + 1999], 10);
    assert_eq!(c.buf[1999 * 2000 + 1001], 11);
    assert_eq!(c.buf.iter().filter(|b| **b != 0).count(), 3);
    let png = c.save().unwrap();
    let lut = create_palette_lookup_table();
    assert_eq!(read_png(&png, &lut).unwrap(), c.buf);
}

#[test]
fn canvas_new_dimensions() {
    let c = Canvas::new(3, 1, (0, 0));
    assert_eq!(c.dimension, (3000, 1000));
    assert_eq!(c.buf.len(), 3_000_000);
}

#[test]
fn chunk_paths() {
    assert_eq!(chunk_number_of_path(b"snap/12/34.png"), Some((12, 34)));
    assert_eq!(chunk_number_of_path(b"12/34.png"), Some((12, 34)));
    assert_eq!(chunk_number_of_path(b"snap/12/34.jpg"), None);
    assert_eq!(chunk_number_of_path(b"snap/a/34.png"), None);
    assert_eq!(chunk_number_of_path(b"snap/12/.png"), None);
    assert_eq!(chunk_number_of_path(b"34.png"), None);
}

#[test]
fn tar_index_lookup() {
    let members: Vec<(String, u64, u64)> = vec![
        ("root/3/4.png".to_string(), 1024, 100),
        ("root/readme.txt".to_string(), 2048, 5),
        ("root/1/9.png".to_string(), 4096, 50),
    ];
    let r = ChunksTarReader::open_with_index("root".to_string(), &members);
    assert_eq!(r.chunks_len(), 2);
    assert_eq!(r.chunks(), vec![(1, 9), (3, 4)]);
    assert_eq!(r.open_chunk((3, 4)), Some(Range { start: 1024, size: 100 }));
    assert_eq!(r.open_chunk((1, 9)), Some(Range { start: 4096, size: 50 }));
    assert_eq!(r.open_chunk((9, 9)), None);
}

#[test]
fn directory_listing() {
    let paths: Vec<String> = ["3/1.png", "1/2.png", "x/1.png", "1/1.png", "9/9.png"].iter().map(|s| s.to_string()).collect();
    assert_eq!(collect_chunks(&paths, None), vec![(1, 1), (1, 2), (3, 1), (9, 9)]);
    let range = TilesRange { x_min: 1, x_max: 3, y_min: 1, y_max: 1 };
    assert_eq!(collect_chunks(&paths, Some(range)), vec![(1, 1), (3, 1)]);
}

#[test]
fn index_is_the_same_whatever_the_arrival_order() {
    let base = vec![0u8; CHUNK_LENGTH];
    let news: Vec<Vec<u8>> = (0..5u8).map(|k| vec![k; CHUNK_LENGTH]).collect();
    let nums = [(4u16, 1u16), (0, 0), (2, 9), (2, 3), (7, 7)];
    let build = |order: &[usize]| {
        let mut list = Vec::new();
        for &i in order {
            let d = diff_chunk(Some(&base), &news[i]).unwrap();
            list.push((nums[i], d.data, d.checksum));
        }
        let file = write_file(&list);
        let f = DiffFile::open(&file).unwrap();
        let start = f.index_pos as usize;
        let entries = f.collect_index(&file[start..start + f.index_len() as usize]).unwrap();
        entries.iter().map(|e| (e.x, e.y, e.checksum, e.is_changed())).collect::<Vec<_>>()
    };
    assert_eq!(build(&[0, 1, 2, 3, 4]), build(&[4, 3, 2, 1, 0]));
    assert_eq!(build(&[0, 1, 2, 3, 4]), build(&[2, 0, 4, 1, 3]));
    let first = build(&[0, 1, 2, 3, 4]);
    assert_eq!(first[0], (0, 0, chunk_checksum(&news[1]), true));
    assert_eq!(first[3], (4, 1, chunk_checksum(&news[0]), false));
    assert_eq!(diff_mask(&base, &news[3])[0], 0x43);
}

#[test]
fn partition_splits_changed_and_unchanged() {
    let es = vec![
        IndexEntry { x: 0, y: 0, checksum: 1, pos: 0, len: 0 },
        IndexEntry { x: 0, y: 1, checksum: 2, pos: 40, len: 9 },
        IndexEntry { x: 1, y: 0, checksum: 3, pos: 0, len: 0 },
        IndexEntry { x: 1, y: 1, checksum: 4, pos: 49, len: 3 },
    ];
    let (changed, unchanged) = partition_entries(&es);
    assert_eq!(changed, vec![es[1], es[3]]);
    assert_eq!(unchanged, vec![es[0], es[2]]);
}

#[test]
fn tar_and_directory_list_the_same_chunks() {
    let rel = ["0/1.png", "2/0.png", "0/0.png"];
    let members: Vec<(String, u64, u64)> =
        rel.iter().enumerate().map(|(i, p)| (format!("snap/{p}"), 512 * (i as u64 + 1), 10)).collect();
    let paths: Vec<String> = rel.iter().map(|s| s.to_string()).collect();
    let tar = ChunksTarReader::open_with_index("snap".to_string(), &members);
    assert_eq!(tar.chunks(), collect_chunks(&paths, None));
}

fn packed(width: u32, bit_depth: u8, palette: Vec<u8>, data: Vec<u8>) -> DecodedPng {
    DecodedPng { width, height: 1, bit_depth, indexed: true, palette: Some(palette), trns: None, data }
}

#[test]
fn unpacks_one_bit_samples() {
    let lut = create_palette_lookup_table();
    let img = packed(8, 1, vec![0, 0, 0, 255, 255, 255], vec![0b1010_0001]);
    assert_eq!(decode_png_image(&img, &lut).unwrap(), vec![6, 1, 6, 1, 1, 1, 1, 6]);
}

#[test]
fn unpacks_two_and_four_bit_samples() {
    let lut = create_palette_lookup_table();
    let pal = vec![0, 0, 0, 60, 60, 60, 120, 120, 120, 170, 170, 170];
    let img = packed(4, 2, pal.clone(), vec![0b00_01_10_11]);
    assert_eq!(decode_png_image(&img, &lut).unwrap(), vec![1, 2, 3, 4]);
    let img = packed(2, 4, pal, vec![0x21]);
    assert_eq!(decode_png_image(&img, &lut).unwrap(), vec![3, 2]);
}

#[test]
fn decode_rejects_bad_images() {
    let lut = create_palette_lookup_table();
    let pal = vec![0, 0, 0, 60, 60, 60];
    let mut img = packed(2, 8, pal.clone(), vec![0, 1]);
    assert_eq!(decode_png_image(&img, &lut).unwrap(), vec![1, 2]);
    img.bit_depth = 16;
    assert_eq!(decode_png_image(&img, &lut), Err(ErrorKind::Decode));
    let mut img = packed(2, 8, pal.clone(), vec![0, 2]);
    assert_eq!(decode_png_image(&img, &lut), Err(ErrorKind::Decode));
    img.data = vec![0];
    assert_eq!(decode_png_image(&img, &lut), Err(ErrorKind::Decode));
    let mut img = packed(2, 8, pal, vec![0, 1]);
    img.indexed = false;
    assert_eq!(decode_png_image(&img, &lut), Err(ErrorKind::Decode));
    img.indexed = true;
    img.palette = None;
    assert_eq!(decode_png_image(&img, &lut), Err(ErrorKind::Decode));
}

#[test]
fn directory_listing_drops_duplicates_and_deeper_paths() {
    let paths: Vec<String> =
        ["01/2.png", "1/2.png", "a/3/4.png", "3/4.png.bak", "5/6.png", "1/02.png"].iter().map(|s| s.to_string()).collect();
    assert_eq!(collect_chunks(&paths, None), vec![(1, 2), (5, 6)]);
}

#[test]
fn unaligned_sub_byte_rows_are_rejected() {
    let lut = create_palette_lookup_table();
    let img = packed(3, 4, vec![0, 0, 0, 60, 60, 60], vec![0x01, 0x10]);
    assert_eq!(decode_png_image(&img, &lut), Err(ErrorKind::Decode));
}

#[test]
fn tar_index_keeps_the_last_member_of_a_chunk() {
    let members: Vec<(String, u64, u64)> = vec![
        ("root/2/2.png".to_string(), 512, 10),
        ("root/1/1.png".to_string(), 1024, 20),
        ("root/2/2.png".to_string(), 2048, 30),
        ("root/02/2.png".to_string(), 4096, 40),
    ];
    let r = ChunksTarReader::open_with_index("root".to_string(), &members);
    assert_eq!(r.chunks(), vec![(1, 1), (2, 2)]);
    assert_eq!(r.open_chunk((2, 2)), Some(Range { start: 4096, size: 40 }));
    assert_eq!(r.open_chunk((1, 1)), Some(Range { start: 1024, size: 20 }));
}
