use dh_anvil::chunk::{
    BlockState, BlockStates, Biomes, Chunk, PackedBiomes, PackedBlockStates, Section,
};
use dh_anvil::error::ConvertError;

fn state(name: &str) -> BlockState {
    BlockState { name: name.to_string(), properties: None }
}

fn with_props(name: &str, props: &[(&str, &str)]) -> BlockState {
    BlockState {
        name: name.to_string(),
        properties: Some(props.iter().map(|(k, v)| (k.to_string(), v.to_string())).collect()),
    }
}

#[test]
fn single_state_serializes_without_data() {
    let s = BlockStates::filled(state("minecraft:stone"));
    let p = s.to_packed();
    assert_eq!(p.palette, vec![state("minecraft:stone")]);
    assert!(p.data.is_none());
}

#[test]
fn palette_in_order_of_first_use() {
    let mut s = BlockStates::filled(state("minecraft:air"));
    s.set(0, state("minecraft:stone"));
    s.set(5, with_props("minecraft:oak_log", &[("axis", "y")]));
    let p = s.to_packed();
    assert_eq!(
        p.palette,
        vec![state("minecraft:stone"), state("minecraft:air"), with_props("minecraft:oak_log", &[("axis", "y")])]
    );
    let data = p.data.unwrap();
    assert_eq!(data.len(), 256);
    // voxel 0 -> 0, voxels 1..5 -> 1, voxel 5 -> 2, the rest -> 1, four bits each
    assert_eq!(data[0], 0x1111_1111_1121_1110);
    assert_eq!(data[1], 0x1111_1111_1111_1111);
}

#[test]
fn unused_entries_leave_the_palette() {
    let mut s = BlockStates::filled(state("minecraft:air"));
    s.set(7, state("minecraft:stone"));
    s.set(7, state("minecraft:dirt"));
    let p = s.to_packed();
    assert_eq!(p.palette, vec![state("minecraft:air"), state("minecraft:dirt")]);
}

#[test]
fn block_states_round_trip() {
    let mut s = BlockStates::filled(state("minecraft:air"));
    for i in 0..40usize {
        s.set(i * 97 % 4096, state(&format!("minecraft:block_{}", i % 19)));
    }
    let back = BlockStates::from_packed(s.to_packed()).unwrap();
    for i in 0..4096 {
        assert_eq!(back.get(i), s.get(i));
    }
}

#[test]
fn empty_palette_means_air() {
    let s = BlockStates::from_packed(PackedBlockStates { palette: vec![], data: None }).unwrap();
    assert_eq!(s.get(123), &state("minecraft:air"));
}

#[test]
fn duplicate_palette_is_refused() {
    let r = BlockStates::from_packed(PackedBlockStates {
        palette: vec![state("minecraft:stone"), state("minecraft:stone")],
        data: None,
    });
    assert_eq!(r.unwrap_err(), ConvertError::InvalidPalette);
}

#[test]
fn short_block_data_is_refused() {
    let r = BlockStates::from_packed(PackedBlockStates {
        palette: vec![state("minecraft:stone"), state("minecraft:dirt")],
        data: Some(vec![0; 255]),
    });
    assert_eq!(r.unwrap_err(), ConvertError::ShortPaletteData);
}

#[test]
fn index_past_palette_is_refused() {
    let mut words = vec![0i64; 256];
    words[3] = 5;
    let r = BlockStates::from_packed(PackedBlockStates {
        palette: vec![state("minecraft:stone"), state("minecraft:dirt")],
        data: Some(words),
    });
    assert_eq!(r.unwrap_err(), ConvertError::PaletteIndexOutOfRange);
}

#[test]
fn index_of_finds_entries() {
    let mut s = BlockStates::filled(state("minecraft:air"));
    s.set(1, state("minecraft:stone"));
    assert_eq!(s.index_of(&state("minecraft:stone")), Some(1));
    assert_eq!(s.index_of(&state("minecraft:air")), Some(0));
    assert_eq!(s.index_of(&state("minecraft:dirt")), None);
}

#[test]
fn biomes_single_entry_omits_data() {
    let b = Biomes::filled("minecraft:desert".to_string());
    let p = b.to_packed();
    assert_eq!(p.palette, vec!["minecraft:desert".to_string()]);
    assert!(p.data.is_none());
}

#[test]
fn biome_samples_first_and_last_voxel() {
    let mut b = Biomes::filled("minecraft:plains".to_string());
    // slot 1 (odd) samples its last voxel (7, 3, 3): index 3*256 + 3*16 + 7
    b.set(3 * 256 + 3 * 16 + 7, "minecraft:desert".to_string());
    // slot 0 (even) samples its first voxel; (1, 0, 0) is not sampled
    b.set(1, "minecraft:forest".to_string());
    let p = b.to_packed();
    assert_eq!(
        p.palette,
        vec!["minecraft:plains".to_string(), "minecraft:forest".to_string(), "minecraft:desert".to_string()]
    );
    let data = p.data.unwrap();
    // three entries need two bits: 32 samples per word
    assert_eq!(data.len(), 2);
    assert_eq!(data[0], 2 << 2);
    assert_eq!(data[1], 0);
}

#[test]
fn biomes_broadcast_samples() {
    let b = Biomes::from_packed(PackedBiomes {
        palette: vec!["minecraft:plains".to_string(), "minecraft:desert".to_string()],
        data: Some(vec![0b10, 0]),
    })
    .unwrap();
    // slot 1 covers x in 4..8, y in 0..4, z in 0..4
    assert_eq!(b.get(2 * 256 + 3 * 16 + 5), "minecraft:desert");
    assert_eq!(b.get(2 * 256 + 3 * 16 + 3), "minecraft:plains");
    assert_eq!(b.get(4 * 256 + 5), "minecraft:plains");
}

#[test]
fn biomes_empty_palette_means_plains() {
    let b = Biomes::from_packed(PackedBiomes { palette: vec![], data: None }).unwrap();
    assert_eq!(b.get(0), "minecraft:plains");
}

#[test]
fn short_biome_data_is_refused() {
    let r = Biomes::from_packed(PackedBiomes {
        palette: vec!["a".to_string(), "b".to_string()],
        data: Some(vec![]),
    });
    assert_eq!(r.unwrap_err(), ConvertError::ShortPaletteData);
}

#[test]
fn set_block_bottom_and_top() {
    let mut c = Chunk::new(0, 0, "minecraft:full".to_string());
    c.set_block(3, -64, 5, state("minecraft:bedrock")).unwrap();
    c.set_block(3, 319, 5, state("minecraft:glass")).unwrap();
    assert_eq!(c.sections[0].block_states.get((5 << 4) | 3), &state("minecraft:bedrock"));
    assert_eq!(c.sections[23].block_states.get((15 << 8) | (5 << 4) | 3), &state("minecraft:glass"));
    assert_eq!(c.block(3, -64, 5), Some(&state("minecraft:bedrock")));
    assert_eq!(c.block(3, 0, 5), Some(&state("minecraft:air")));
}

#[test]
fn set_block_out_of_bounds() {
    let mut c = Chunk::new(0, 0, "minecraft:full".to_string());
    assert_eq!(c.set_block(16, 0, 0, state("minecraft:stone")), Err(ConvertError::OutOfBounds));
    assert_eq!(c.set_block(0, 0, 16, state("minecraft:stone")), Err(ConvertError::OutOfBounds));
    assert_eq!(c.set_block(0, 320, 0, state("minecraft:stone")), Err(ConvertError::OutOfBounds));
    assert_eq!(c.set_block(0, -65, 0, state("minecraft:stone")), Err(ConvertError::OutOfBounds));
    assert_eq!(c.block(0, 320, 0), None);
}

#[test]
fn set_block_needs_its_section() {
    let mut c = Chunk::new(0, 0, "minecraft:full".to_string());
    c.sections.truncate(4);
    assert_eq!(c.set_block(0, 0, 0, state("minecraft:stone")), Err(ConvertError::OutOfBounds));
    assert!(c.set_block(0, -1, 0, state("minecraft:stone")).is_ok());
}

#[test]
fn set_biome_replaces_all() {
    let mut c = Chunk::new(2, 3, "minecraft:full".to_string());
    c.set_block_biome(1, 10, 1, state("minecraft:stone"), "minecraft:desert".to_string()).unwrap();
    assert_eq!(c.sections[4].biomes.get(10 * 256 + 16 + 1), "minecraft:desert");
    c.set_biome("minecraft:ocean".to_string());
    for s in &c.sections {
        let p = s.biomes.to_packed();
        assert_eq!(p.palette, vec!["minecraft:ocean".to_string()]);
    }
    assert_eq!(c.block(1, 10, 1), Some(&state("minecraft:stone")));
}

#[test]
fn chunk_position_and_status() {
    let mut c = Chunk::new(0, 0, "minecraft:full".to_string());
    c.set_chunk_pos(-7, 12);
    c.set_status("minecraft:initialize_light".to_string());
    assert_eq!((c.x, c.z), (-7, 12));
    assert_eq!(c.status, "minecraft:initialize_light");
    assert_eq!(c.sections.len(), 24);
    assert_eq!(c.sections[0].y, -4);
    assert_eq!(c.sections[23].y, 19);
}

#[test]
fn section_round_trip() {
    let mut s = Section::new(2);
    s.block_states.set(17, state("minecraft:stone"));
    let back = Section::from_packed(s.to_packed()).unwrap();
    assert_eq!(back.y, 2);
    assert_eq!(back.block_states.get(17), &state("minecraft:stone"));
    assert_eq!(back.block_states.get(18), &state("minecraft:air"));
    assert_eq!(back.biomes.get(18), "minecraft:plains");
}

#[test]
fn clone_keeps_blocks() {
    let mut c = Chunk::new(0, 0, "minecraft:full".to_string());
    c.set_block(0, 0, 0, with_props("minecraft:oak_log", &[("axis", "x")])).unwrap();
    let d = c.clone();
    assert_eq!(d.block(0, 0, 0), Some(&with_props("minecraft:oak_log", &[("axis", "x")])));
}

#[test]
fn set_column_fills_a_run() {
    let mut s = BlockStates::filled(state("minecraft:air"));
    s.set_column(2, 3, 4, 9, state("minecraft:stone"));
    for y in 0..16 {
        let expected = if (4..9).contains(&y) { state("minecraft:stone") } else { state("minecraft:air") };
        assert_eq!(s.get(y * 256 + 3 * 16 + 2), &expected);
    }
    assert_eq!(s.get(5 * 256 + 3 * 16 + 1), &state("minecraft:air"));
    let mut c = Chunk::new(0, 0, "minecraft:full".to_string());
    c.fill_column(4, 5, -10, 40, &state("minecraft:dirt"));
    assert_eq!(c.block(4, -11, 5), Some(&state("minecraft:air")));
    assert_eq!(c.block(4, -10, 5), Some(&state("minecraft:dirt")));
    assert_eq!(c.block(4, 39, 5), Some(&state("minecraft:dirt")));
    assert_eq!(c.block(4, 40, 5), Some(&state("minecraft:air")));
}
