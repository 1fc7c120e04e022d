use dh_anvil::data::{
    decode_section, deserialize_data, deserialize_mapping, find_section, parse_columns,
    parse_entry, parse_mapping, DHFullDataPoint, DHSectionPos, RegionPos,
};
use dh_anvil::decompress::CompressionMode;
use dh_anvil::error::ConvertError;
use std::io::Write;

fn word(id: i64, height: i64, min_y: i64) -> i64 {
    id | (height << 32) | (min_y << 44)
}

/// A column blob in which column 0 holds `first` and every other column is empty.
fn column_blob(first: &[i64]) -> Vec<u8> {
    let mut b = Vec::new();
    b.extend_from_slice(&(first.len() as i16).to_be_bytes());
    for w in first {
        b.extend_from_slice(&w.to_be_bytes());
    }
    for _ in 1..4096 {
        b.extend_from_slice(&0i16.to_be_bytes());
    }
    b
}

fn mapping_blob(entries: &[&str]) -> Vec<u8> {
    let mut b = Vec::new();
    b.extend_from_slice(&(entries.len() as i32).to_be_bytes());
    for e in entries {
        b.extend_from_slice(&(e.len() as i16).to_be_bytes());
        b.extend_from_slice(e.as_bytes());
    }
    b
}

fn xz(data: &[u8]) -> Vec<u8> {
    let mut enc = xz2::write::XzEncoder::new(Vec::new(), 6);
    enc.write_all(data).unwrap();
    enc.finish().unwrap()
}

#[test]
fn compression_tags() {
    assert_eq!(CompressionMode::from_num(0), Some(CompressionMode::Uncompressed));
    assert_eq!(CompressionMode::from_num(1), Some(CompressionMode::Lz4));
    assert_eq!(CompressionMode::from_num(3), Some(CompressionMode::Lzma2));
    assert_eq!(CompressionMode::from_num(2), None);
    assert_eq!(CompressionMode::from_num(4), None);
}

#[test]
fn uncompressed_passes_through() {
    assert_eq!(CompressionMode::Uncompressed.decompress(vec![1, 2, 3]), Ok(vec![1, 2, 3]));
}

#[test]
fn lz4_is_unsupported() {
    assert_eq!(CompressionMode::Lz4.decompress(vec![1, 2, 3]), Err(ConvertError::UnsupportedCompression));
}

#[test]
fn xz_decodes() {
    let plain = b"far terrain, far terrain, far terrain".to_vec();
    assert_eq!(CompressionMode::Lzma2.decompress(xz(&plain)), Ok(plain));
}

#[test]
fn corrupt_xz_is_refused() {
    let mut packed = xz(b"some bytes to pack");
    packed.truncate(packed.len() - 6);
    assert_eq!(CompressionMode::Lzma2.decompress(packed), Err(ConvertError::Decompress));
    assert_eq!(CompressionMode::Lzma2.decompress(vec![1, 2, 3]), Err(ConvertError::Decompress));
}

#[test]
fn data_point_layout() {
    let p = DHFullDataPoint::from_word(word(5, 10, 400));
    assert_eq!(p, DHFullDataPoint { id: 5, height: 10, min_y: 400 });
    assert_eq!(p.to_word(), word(5, 10, 400));
    let q = DHFullDataPoint::from_word(-1);
    assert_eq!(q, DHFullDataPoint { id: 0x7fff_ffff, height: 4095, min_y: 4095 });
}

#[test]
fn data_point_round_trip() {
    for (id, h, m) in [(0, 0, 0), (0x7fff_ffff, 4095, 4095), (123456, 17, 2048)] {
        let p = DHFullDataPoint { id, height: h, min_y: m };
        assert_eq!(DHFullDataPoint::from_word(p.to_word()), p);
    }
}

#[test]
fn columns_parse() {
    let cols = parse_columns(&column_blob(&[word(1, 1, 0), word(2, 3, 64)])).unwrap();
    assert_eq!(cols.len(), 4096);
    assert_eq!(
        cols[0],
        vec![DHFullDataPoint { id: 1, height: 1, min_y: 0 }, DHFullDataPoint { id: 2, height: 3, min_y: 64 }]
    );
    assert!(cols[1..].iter().all(|c| c.is_empty()));
}

#[test]
fn columns_negative_length() {
    let mut b = column_blob(&[]);
    b[0] = 0xff;
    b[1] = 0xff;
    assert_eq!(parse_columns(&b), Err(ConvertError::NegativeLength));
}

#[test]
fn columns_short_blob() {
    let b = column_blob(&[]);
    assert_eq!(parse_columns(&b[..b.len() - 1]), Err(ConvertError::ShortBlob));
    let mut c = vec![0u8, 1];
    c.extend_from_slice(&[0; 7]);
    assert_eq!(parse_columns(&c), Err(ConvertError::ShortBlob));
}

#[test]
fn deserialize_data_xz() {
    let blob = column_blob(&[word(1, 1, 0)]);
    let cols = deserialize_data(xz(&blob), &CompressionMode::Lzma2).unwrap();
    assert_eq!(cols[0], vec![DHFullDataPoint { id: 1, height: 1, min_y: 0 }]);
}

#[test]
fn entry_with_states() {
    let e = parse_entry(&b"minecraft:plains_DH-BSW_minecraft:oak_log_STATE_{axis:y}{waterlogged:false}".to_vec()).unwrap();
    assert_eq!(e.biome, "minecraft:plains");
    assert_eq!(e.block.as_deref(), Some("minecraft:oak_log"));
    assert_eq!(
        e.block_state,
        vec![("axis".to_string(), "y".to_string()), ("waterlogged".to_string(), "false".to_string())]
    );
}

#[test]
fn entry_air_sentinel() {
    let e = parse_entry(&b"minecraft:plains_DH-BSW_AIR_STATE_".to_vec()).unwrap();
    assert_eq!(e.biome, "minecraft:plains");
    assert_eq!(e.block, None);
    assert!(e.block_state.is_empty());
    let bare = parse_entry(&b"minecraft:ocean_DH-BSW_AIR".to_vec()).unwrap();
    assert_eq!(bare.block, None);
}

#[test]
fn entry_bare_block() {
    let e = parse_entry(&b"minecraft:desert_DH-BSW_minecraft:sand".to_vec()).unwrap();
    assert_eq!(e.biome, "minecraft:desert");
    assert_eq!(e.block.as_deref(), Some("minecraft:sand"));
    assert!(e.block_state.is_empty());
    let empty_states = parse_entry(&b"minecraft:desert_DH-BSW_minecraft:sand_STATE_".to_vec()).unwrap();
    assert_eq!(empty_states.block.as_deref(), Some("minecraft:sand"));
    assert!(empty_states.block_state.is_empty());
}

#[test]
fn entry_value_keeps_later_colons() {
    let e = parse_entry(&b"b_DH-BSW_x_STATE_{k:a:b}".to_vec()).unwrap();
    assert_eq!(e.block_state, vec![("k".to_string(), "a:b".to_string())]);
}

#[test]
fn entry_errors() {
    assert_eq!(parse_entry(&b"minecraft:plains".to_vec()).unwrap_err(), ConvertError::MissingSeparator);
    assert_eq!(parse_entry(&b"b_DH-BSW_x_STATE_{novalue}".to_vec()).unwrap_err(), ConvertError::MalformedState);
    assert_eq!(parse_entry(&b"b_DH-BSW_x_STATE_{".to_vec()).unwrap_err(), ConvertError::MalformedState);
    assert_eq!(parse_entry(&vec![0xff, b'_', b'D', b'H', b'-', b'B', b'S', b'W', b'_', b'x']).unwrap_err(), ConvertError::InvalidUtf8);
}

#[test]
fn entry_non_ascii_text() {
    let text = "biome_é_DH-BSW_block_ü";
    let e = parse_entry(&text.as_bytes().to_vec()).unwrap();
    assert_eq!(e.biome, "biome_é");
    assert_eq!(e.block.as_deref(), Some("block_ü"));
}

#[test]
fn mapping_table() {
    let m = parse_mapping(&mapping_blob(&["minecraft:plains_DH-BSW_AIR", "minecraft:plains_DH-BSW_minecraft:stone"])).unwrap();
    assert_eq!(m.len(), 2);
    assert_eq!(m[0].block, None);
    assert_eq!(m[1].block.as_deref(), Some("minecraft:stone"));
}

#[test]
fn mapping_errors() {
    assert_eq!(parse_mapping(&mapping_blob(&[])).unwrap_err(), ConvertError::NoMapping);
    assert_eq!(parse_mapping(&[0, 0]).unwrap_err(), ConvertError::ShortBlob);
    let mut b = mapping_blob(&["a_DH-BSW_b"]);
    b[3] = 2;
    assert_eq!(parse_mapping(&b).unwrap_err(), ConvertError::ShortBlob);
    let mut n = mapping_blob(&["a_DH-BSW_b"]);
    n[4] = 0x80;
    assert_eq!(parse_mapping(&n).unwrap_err(), ConvertError::NegativeLength);
}

#[test]
fn deserialize_mapping_uncompressed() {
    let m = deserialize_mapping(mapping_blob(&["minecraft:plains_DH-BSW_minecraft:stone"]), &CompressionMode::Uncompressed).unwrap();
    assert_eq!(m[0].biome, "minecraft:plains");
}

#[test]
fn decode_section_row() {
    let s = decode_section(3, -4, -64, column_blob(&[word(0, 2, 0)]), mapping_blob(&["p_DH-BSW_AIR"]), 1, 0).unwrap();
    assert_eq!(s.pos, DHSectionPos { x: 3, z: -4 });
    assert_eq!(s.min_y, -64);
    assert_eq!(s.data[0], vec![DHFullDataPoint { id: 0, height: 2, min_y: 0 }]);
    assert_eq!(s.compression_mode, CompressionMode::Uncompressed);
}

#[test]
fn decode_section_bad_tag() {
    let r = decode_section(0, 0, 0, column_blob(&[]), mapping_blob(&["p_DH-BSW_AIR"]), 1, 2);
    assert_eq!(r.unwrap_err(), ConvertError::InvalidCompression(2));
    let r = decode_section(0, 0, 0, column_blob(&[]), mapping_blob(&["p_DH-BSW_AIR"]), 1, -1);
    assert_eq!(r.unwrap_err(), ConvertError::InvalidCompression(-1));
    let r = decode_section(0, 0, 0, column_blob(&[]), mapping_blob(&["p_DH-BSW_AIR"]), 1, 1);
    assert_eq!(r.unwrap_err(), ConvertError::UnsupportedCompression);
}

#[test]
fn region_of_sections() {
    assert_eq!(DHSectionPos { x: 0, z: 7 }.to_region_pos(), RegionPos { x: 0, z: 0 });
    assert_eq!(DHSectionPos { x: 8, z: -1 }.to_region_pos(), RegionPos { x: 1, z: -1 });
    assert_eq!(DHSectionPos { x: -9, z: -8 }.to_region_pos(), RegionPos { x: -2, z: -1 });
    assert_eq!(RegionPos { x: -2, z: 3 }.section_bounds(), (-16, -8, 24, 32));
}

#[test]
fn finds_sections_by_position() {
    let a = decode_section(1, 2, 0, column_blob(&[]), mapping_blob(&["p_DH-BSW_AIR"]), 1, 0).unwrap();
    let b = decode_section(2, 2, 0, column_blob(&[]), mapping_blob(&["p_DH-BSW_AIR"]), 1, 0).unwrap();
    let v = vec![a, b];
    assert_eq!(find_section(&v, &DHSectionPos { x: 2, z: 2 }), Some(1));
    assert_eq!(find_section(&v, &DHSectionPos { x: 3, z: 2 }), None);
}

#[test]
fn later_row_for_a_position_wins() {
    let a = decode_section(1, 2, 0, column_blob(&[]), mapping_blob(&["p_DH-BSW_AIR"]), 1, 0).unwrap();
    let b = decode_section(1, 2, 5, column_blob(&[]), mapping_blob(&["p_DH-BSW_AIR"]), 1, 0).unwrap();
    let v = vec![a, b];
    assert_eq!(find_section(&v, &DHSectionPos { x: 1, z: 2 }), Some(1));
}

#[test]
fn invalid_utf8_anywhere_is_refused() {
    let mut air = b"p_DH-BSW_AIR_STATE_".to_vec();
    air.push(0xff);
    assert_eq!(parse_entry(&air).unwrap_err(), ConvertError::InvalidUtf8);
    let mut states = b"p_DH-BSW_x_STATE_{a:b}".to_vec();
    states.push(0xff);
    assert_eq!(parse_entry(&states).unwrap_err(), ConvertError::InvalidUtf8);
    let mut blob = mapping_blob(&["p_DH-BSW_AIR_STATE_"]);
    blob.push(0xff);
    let n = blob.len() - 6;
    blob[4] = (n >> 8) as u8;
    blob[5] = n as u8;
    assert_eq!(deserialize_mapping(blob, &CompressionMode::Uncompressed).unwrap_err(), ConvertError::InvalidUtf8);
}

#[test]
fn states_trim_whole_characters() {
    let e = parse_entry(&"p_DH-BSW_x_STATE_«k:v»".as_bytes().to_vec()).unwrap();
    assert_eq!(e.block_state, vec![("k".to_string(), "v".to_string())]);
    let one = parse_entry(&"p_DH-BSW_x_STATE_é".as_bytes().to_vec()).unwrap_err();
    assert_eq!(one, ConvertError::MalformedState);
}
