use cogtiff::codec::compress_tile;
use cogtiff::codec::decompress_tile;
use cogtiff::store::CogBuilder;
use cogtiff::CogError;
use cogtiff::TILE_SIZE;

#[test]
fn it_works() {
    let mut builder = CogBuilder::new(Vec::new(), 4096, 4096, vec![8], false, "0").unwrap();
    let compressed = compress_tile(&vec![255u8; 1024 * 1024]);
    let compressed2 = compress_tile(&vec![127u8; 1024 * 1024]);

    for level in 0..3 {
        for i in 0..(4u32 >> level).pow(2) {
            if i % 2 == (i / (4 >> level)) % 2 {
                builder.write_tile(level, i, &compressed).unwrap();
            } else {
                builder.write_tile(level, i, &compressed2).unwrap();
            }
        }
    }
}

#[test]
fn pyramid_shape_4096() {
    let builder = CogBuilder::new(Vec::new(), 4096, 4096, vec![8], false, "").unwrap();
    assert_eq!(builder.levels(), 3);
    assert_eq!(builder.width(0), 4096);
    assert_eq!(builder.width(1), 2048);
    assert_eq!(builder.width(2), 1024);
    assert_eq!(builder.height(0), 4096);
    assert_eq!(builder.height(1), 2048);
    assert_eq!(builder.height(2), 1024);
    assert_eq!(builder.tiles_across(0) * builder.tiles_down(0), 16);
    assert_eq!(builder.tiles_across(1) * builder.tiles_down(1), 4);
    assert_eq!(builder.tiles_across(2), 1);
    assert_eq!(builder.tiles_down(2), 1);
}

#[test]
fn pyramid_shape_uneven() {
    // ceiling-halving: 5000 -> 2500 -> 1250 -> 625, stopping once both
    // dimensions fit in one tile edge
    let builder = CogBuilder::new(Vec::new(), 5000, 300, vec![8], false, "").unwrap();
    assert_eq!(builder.levels(), 4);
    assert_eq!(builder.width(1), 2500);
    assert_eq!(builder.width(2), 1250);
    assert_eq!(builder.width(3), 625);
    assert_eq!(builder.height(1), 150);
    assert_eq!(builder.height(3), 38);
    assert_eq!(builder.tiles_across(0), 5);
    assert_eq!(builder.tiles_down(0), 1);
    assert_eq!(builder.tiles_across(2), 2);
}

#[test]
fn tile_edge_is_fixed() {
    assert_eq!(TILE_SIZE, 1024);
}

#[test]
fn fresh_container_all_unwritten() {
    let builder = CogBuilder::new(Vec::new(), 4096, 4096, vec![8], false, "").unwrap();
    for level in 0..builder.levels() {
        let mask = builder.valid_mask(level).unwrap();
        assert_eq!(mask.len() as u32, builder.tiles_across(level) * builder.tiles_down(level));
        assert!(mask.iter().all(|&v| !v));
        for i in 0..mask.len() as u32 {
            assert_eq!(builder.read_tile(level, i).unwrap(), None);
        }
    }
}

#[test]
fn write_then_read_round_trip() {
    let mut builder = CogBuilder::new(Vec::new(), 4096, 4096, vec![8], false, "").unwrap();
    let payload = compress_tile(&vec![9u8; 64]);
    builder.write_tile(0, 5, &payload).unwrap();
    assert_eq!(builder.read_tile(0, 5).unwrap(), Some(payload.clone()));
    assert!(builder.valid_mask(0).unwrap()[5]);
    // the other slots of the level are untouched
    let mask = builder.valid_mask(0).unwrap();
    for i in 0..16 {
        assert_eq!(mask[i], i == 5);
    }
}

#[test]
fn valid_mask_idempotent() {
    let mut builder = CogBuilder::new(Vec::new(), 4096, 4096, vec![8], false, "").unwrap();
    builder.write_tile(1, 2, &[1, 2, 3]).unwrap();
    builder.write_nodata_tile(1, 0).unwrap();
    let first = builder.valid_mask(1).unwrap();
    let second = builder.valid_mask(1).unwrap();
    assert_eq!(first, second);
    assert_eq!(first, vec![true, false, true, false]);
}

#[test]
fn nodata_tile_valid_but_absent() {
    let mut builder = CogBuilder::new(Vec::new(), 4096, 4096, vec![8], false, "").unwrap();
    builder.write_nodata_tile(0, 3).unwrap();
    assert!(builder.valid_mask(0).unwrap()[3]);
    assert_eq!(builder.read_tile(0, 3).unwrap(), None);
}

#[test]
fn single_tile_level_write_and_mask() {
    let mut builder = CogBuilder::new(Vec::new(), 4096, 4096, vec![8], false, "").unwrap();
    let payload = compress_tile(&vec![42u8; 100]);
    builder.write_tile(2, 0, &payload).unwrap();
    assert_eq!(builder.valid_mask(2).unwrap(), vec![true]);
    assert_eq!(builder.read_tile(2, 0).unwrap(), Some(payload));
}

#[test]
fn out_of_range_read_is_absent() {
    let builder = CogBuilder::new(Vec::new(), 4096, 4096, vec![8], false, "").unwrap();
    // level 0 has 16 tiles; index 16 is one past the end
    assert_eq!(builder.read_tile(0, 16).unwrap(), None);
    assert_eq!(builder.read_tile(2, 1).unwrap(), None);
    assert_eq!(builder.read_tile(2, 1000).unwrap(), None);
}

#[test]
fn reopen_preserves_tiles() {
    let mut builder = CogBuilder::new(Vec::new(), 4096, 4096, vec![8], false, "").unwrap();
    let a = compress_tile(&vec![1u8; 500]);
    let b = compress_tile(&vec![2u8; 700]);
    builder.write_tile(0, 0, &a).unwrap();
    builder.write_tile(1, 3, &b).unwrap();
    builder.write_tile(2, 0, &a).unwrap();
    builder.write_nodata_tile(0, 7).unwrap();

    let saved = builder.bytes().clone();
    let reopened = CogBuilder::new(saved, 4096, 4096, vec![8], false, "").unwrap();
    assert_eq!(reopened.levels(), 3);
    assert_eq!(reopened.read_tile(0, 0).unwrap(), Some(a.clone()));
    assert_eq!(reopened.read_tile(1, 3).unwrap(), Some(b));
    // the single-tile level keeps its inline entries across the rewrite
    assert_eq!(reopened.read_tile(2, 0).unwrap(), Some(a));
    assert!(reopened.valid_mask(0).unwrap()[7]);
    assert_eq!(reopened.read_tile(0, 7).unwrap(), None);
    assert!(!reopened.valid_mask(0).unwrap()[1]);
    for level in 0..3 {
        assert_eq!(
            builder.valid_mask(level).unwrap(),
            reopened.valid_mask(level).unwrap()
        );
    }
}

#[test]
fn reopen_after_appends_keeps_length() {
    let mut builder = CogBuilder::new(Vec::new(), 2048, 2048, vec![8, 8, 8], false, "").unwrap();
    builder.write_tile(0, 1, &[5, 6, 7, 8]).unwrap();
    let saved = builder.bytes().clone();
    let reopened = CogBuilder::new(saved.clone(), 2048, 2048, vec![8, 8, 8], false, "").unwrap();
    assert_eq!(reopened.bytes().len(), saved.len());
    assert_eq!(reopened.read_tile(0, 1).unwrap(), Some(vec![5, 6, 7, 8]));
}

#[test]
fn empty_channel_list_is_rejected() {
    let r = CogBuilder::new(Vec::new(), 100, 100, Vec::new(), false, "");
    assert_eq!(r.err(), Some(CogError::InvalidChannelCount));
}

#[test]
fn oversized_channel_list_is_rejected() {
    let r = CogBuilder::new(Vec::new(), 100, 100, vec![8; 9], false, "");
    assert_eq!(r.err(), Some(CogError::InvalidChannelCount));
}

#[test]
fn tile_count_overflow_is_rejected() {
    let r = CogBuilder::new(Vec::new(), u32::MAX, u32::MAX, vec![8], false, "");
    assert_eq!(r.err(), Some(CogError::TileCountOverflow));
}

#[test]
fn corrupt_entry_is_reported() {
    let mut builder = CogBuilder::new(Vec::new(), 2048, 2048, vec![8], false, "").unwrap();
    builder.write_tile(0, 0, &[1, 2, 3]).unwrap();
    let (offset_loc, size_loc) = builder.offset_size_locations(0, 0);
    let mut corrupted = builder.bytes().clone();
    // make the entry point far past the end of the container
    corrupted[offset_loc as usize..offset_loc as usize + 8]
        .copy_from_slice(&u64::MAX.to_le_bytes());
    corrupted[size_loc as usize..size_loc as usize + 8].copy_from_slice(&8u64.to_le_bytes());
    let reopened = CogBuilder::new(corrupted, 2048, 2048, vec![8], false, "").unwrap();
    assert_eq!(reopened.read_tile(0, 0), Err(CogError::CorruptEntry));
}

#[test]
fn codec_round_trip() {
    let raw: Vec<u8> = (0..=255u8).cycle().take(5000).collect();
    let packed = compress_tile(&raw);
    assert_ne!(packed, raw);
    assert_eq!(decompress_tile(&packed).unwrap(), raw);
}

#[test]
fn codec_rejects_garbage() {
    let r = decompress_tile(&[0xFF, 0xFF, 0xFF, 0xFF, 0xFF, 0xFF, 0xFF, 0xFF]);
    assert_eq!(r, Err(CogError::Decode));
}

#[test]
fn header_magic_is_written() {
    let builder = CogBuilder::new(Vec::new(), 100, 100, vec![8], false, "").unwrap();
    let bytes = builder.bytes();
    assert_eq!(&bytes[0..4], &[73, 73, 43, 0]);
    assert_eq!(&bytes[8..16], &16u64.to_le_bytes());
    // one level of one tile: a 1024-byte directory slot plus the level's
    // 16-byte table allocation (the entries themselves live inline)
    assert_eq!(bytes.len(), 1040);
}

#[test]
fn zero_width_image_has_empty_levels() {
    let builder = CogBuilder::new(Vec::new(), 0, 5000, vec![8], false, "").unwrap();
    assert_eq!(builder.tiles_across(0), 0);
    let mask = builder.valid_mask(0).unwrap();
    assert!(mask.is_empty());
    assert_eq!(builder.read_tile(0, 0).unwrap(), None);
}

#[test]
fn reopen_truncated_table_resets_lost_entries() {
    // two levels: 4 tiles and 1 tile; the external table starts at 2048
    let mut builder = CogBuilder::new(Vec::new(), 2048, 2048, vec![8], false, "").unwrap();
    builder.write_tile(0, 0, &[10, 11]).unwrap();
    builder.write_tile(0, 1, &[12, 13]).unwrap();
    let mut saved = builder.bytes().clone();
    // keep only the first two offset entries of level 0
    saved.truncate(2048 + 16);
    let reopened = CogBuilder::new(saved, 2048, 2048, vec![8], false, "").unwrap();
    // the surviving offset entries still differ from the sentinel; the
    // rest, and every size entry, were reinitialized
    assert_eq!(
        reopened.valid_mask(0).unwrap(),
        vec![true, true, false, false]
    );
    for i in 0..4 {
        assert_eq!(reopened.read_tile(0, i).unwrap(), None);
    }
}

#[test]
fn directory_encodes_channel_layout() {
    let rgb = CogBuilder::new(Vec::new(), 100, 100, vec![8, 8, 8], false, "").unwrap();
    let bytes = rgb.bytes();
    // the record starts at 16; tag values sit 20 bytes apart from byte 36 on
    assert_eq!(&bytes[16..24], &12u64.to_le_bytes());
    assert_eq!(&bytes[56..64], &100u64.to_le_bytes());
    assert_eq!(&bytes[116..124], &5u64.to_le_bytes());
    assert_eq!(&bytes[136..144], &2u64.to_le_bytes());
    assert_eq!(&bytes[256..264], &1u64.to_le_bytes());

    let gray_signed = CogBuilder::new(Vec::new(), 100, 100, vec![16], true, "").unwrap();
    let bytes = gray_signed.bytes();
    assert_eq!(&bytes[136..144], &1u64.to_le_bytes());
    assert_eq!(&bytes[256..264], &2u64.to_le_bytes());
}
