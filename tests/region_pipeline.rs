use dh_anvil::chunk::{BlockState, Chunk};
use dh_anvil::data::{DHFullDataPoint, DHMappingEntry, DHSectionData, DHSectionPos, RegionPos};
use dh_anvil::decompress::CompressionMode;
use dh_anvil::error::ConvertError;
use dh_anvil::worldgen::{
    build_section_chunks, chunk_slot, get_block, init_section_chunks, region_in_range,
    regions_to_generate, RegionRun, WorldGenStatus,
};

fn entry(block: Option<&str>, props: &[(&str, &str)]) -> DHMappingEntry {
    DHMappingEntry {
        biome: "minecraft:plains".to_string(),
        block: block.map(|b| b.to_string()),
        block_state: props.iter().map(|(k, v)| (k.to_string(), v.to_string())).collect(),
    }
}

fn section(x: i32, z: i32, columns: Vec<(usize, Vec<DHFullDataPoint>)>) -> DHSectionData {
    let mut data = vec![Vec::new(); 4096];
    for (c, pts) in columns {
        data[c] = pts;
    }
    DHSectionData {
        pos: DHSectionPos { x, z },
        min_y: 0,
        data,
        mapping: vec![entry(None, &[]), entry(Some("minecraft:stone"), &[])],
        data_format_version: 1,
        compression_mode: CompressionMode::Uncompressed,
    }
}

fn stone() -> BlockState {
    BlockState { name: "minecraft:stone".to_string(), properties: None }
}

fn air() -> BlockState {
    BlockState { name: "minecraft:air".to_string(), properties: None }
}

fn template() -> Chunk {
    Chunk::new(0, 0, "minecraft:full".to_string())
}

#[test]
fn single_section_at_origin() {
    let s = section(0, 0, vec![(0, vec![DHFullDataPoint { id: 1, height: 1, min_y: 0 }])]);
    let chunks = build_section_chunks(&template(), &s).unwrap();
    assert_eq!(chunks.len(), 16);
    let c = &chunks[0];
    assert_eq!((c.x, c.z), (0, 0));
    assert_eq!(c.block(0, -64, 0), Some(&stone()));
    assert_eq!(c.block(0, -63, 0), Some(&air()));
    assert_eq!(c.block(1, -64, 0), Some(&air()));
    let packed = c.sections[0].block_states.to_packed();
    assert!(packed.palette.contains(&air()));
    assert!(packed.palette.contains(&stone()));
    for other in &chunks[1..] {
        assert_eq!(other.block(0, -64, 0), Some(&air()));
    }
}

#[test]
fn height_is_clamped() {
    let s = section(0, 0, vec![(0, vec![DHFullDataPoint { id: 1, height: 10, min_y: 400 }])]);
    let chunks = build_section_chunks(&template(), &s).unwrap();
    assert_eq!(chunks[0].block(0, 319, 0), Some(&stone()));
    assert_eq!(chunks[0].block(0, 318, 0), Some(&air()));
}

#[test]
fn later_runs_win() {
    let s = section(
        1,
        -1,
        vec![(
            65 * 17,
            vec![
                DHFullDataPoint { id: 1, height: 4, min_y: 10 },
                DHFullDataPoint { id: 0, height: 1, min_y: 12 },
            ],
        )],
    );
    let chunks = build_section_chunks(&template(), &s).unwrap();
    // column 65 * 17 = 1105: x = 17, z = 17, so chunk 5 at (1, 1) inside it
    let c = &chunks[5];
    assert_eq!((c.x, c.z), (5, -3));
    assert_eq!(c.status, "minecraft:initialize_light");
    assert_eq!(c.block(1, -54, 1), Some(&stone()));
    assert_eq!(c.block(1, -53, 1), Some(&stone()));
    assert_eq!(c.block(1, -52, 1), Some(&air()));
    assert_eq!(c.block(1, -51, 1), Some(&stone()));
    assert_eq!(c.block(1, -50, 1), Some(&air()));
}

#[test]
fn unknown_mapping_id() {
    let s = section(0, 0, vec![(3, vec![DHFullDataPoint { id: 2, height: 1, min_y: 0 }])]);
    assert_eq!(build_section_chunks(&template(), &s).unwrap_err(), ConvertError::UnknownMappingId);
}

#[test]
fn run_below_world() {
    let s = section(0, 0, vec![(3, vec![DHFullDataPoint { id: 1, height: 1, min_y: -1 }])]);
    assert_eq!(build_section_chunks(&template(), &s).unwrap_err(), ConvertError::OutOfBounds);
}

#[test]
fn template_without_sections() {
    let mut t = template();
    t.sections.truncate(10);
    let s = section(0, 0, vec![]);
    assert_eq!(build_section_chunks(&t, &s).unwrap_err(), ConvertError::BadTemplate);
}

#[test]
fn section_chunks_are_placed() {
    let chunks = init_section_chunks(&template(), &DHSectionPos { x: 2, z: -3 });
    assert_eq!(chunks.len(), 16);
    for (i, c) in chunks.iter().enumerate() {
        assert_eq!(c.x, 8 + (i / 4) as i32);
        assert_eq!(c.z, -12 + (i % 4) as i32);
        assert_eq!(c.status, "minecraft:initialize_light");
        assert_eq!(c.sections[7].biomes.get(100), "minecraft:plains");
    }
}

#[test]
fn block_state_of_entry() {
    let mut s = section(0, 0, vec![]);
    s.mapping.push(entry(Some("minecraft:oak_log"), &[("waterlogged", "false"), ("axis", "y"), ("axis", "z")]));
    let b = get_block(&DHFullDataPoint { id: 2, height: 1, min_y: 0 }, &s).unwrap();
    assert_eq!(b.name, "minecraft:oak_log");
    assert_eq!(
        b.properties,
        Some(vec![("axis".to_string(), "z".to_string()), ("waterlogged".to_string(), "false".to_string())])
    );
    let air_block = get_block(&DHFullDataPoint { id: 0, height: 1, min_y: 0 }, &s).unwrap();
    assert_eq!(air_block, air());
    assert!(get_block(&DHFullDataPoint { id: 3, height: 1, min_y: 0 }, &s).is_none());
    assert!(get_block(&DHFullDataPoint { id: -1, height: 1, min_y: 0 }, &s).is_none());
}

#[test]
fn region_events_in_order() {
    let region = RegionPos { x: -1, z: 2 };
    let (mut run, start) = RegionRun::start(region, 3);
    assert_eq!(start, WorldGenStatus::StartRegion { pos: region, thread_idx: 3 });
    let mut finished = Vec::new();
    while let Some((pos, osx, osz)) = run.next_section() {
        assert_eq!(pos, DHSectionPos { x: -8 + osx as i32, z: 16 + osz as i32 });
        let ev = run.finish_section();
        assert_eq!(ev, WorldGenStatus::FinishDHSection { pos });
        finished.push(pos);
    }
    assert_eq!(finished.len(), 64);
    assert_eq!(finished[9], DHSectionPos { x: -7, z: 17 });
    assert!(finished.iter().all(|p| p.to_region_pos() == region));
    assert_eq!(run.finish(), WorldGenStatus::FinishRegion { pos: region });
}

#[test]
fn empty_database_has_no_regions() {
    assert!(regions_to_generate(&Vec::new(), 0).is_empty());
}

#[test]
fn range_filter_keeps_origin() {
    let sections = vec![
        DHSectionPos { x: 0, z: 0 },
        DHSectionPos { x: 3, z: 5 },
        DHSectionPos { x: 8, z: 0 },
        DHSectionPos { x: 40, z: 40 },
        DHSectionPos { x: 0, z: 16 },
    ];
    assert_eq!(regions_to_generate(&sections, 1), vec![RegionPos { x: 0, z: 0 }]);
    assert_eq!(
        regions_to_generate(&sections, 0),
        vec![RegionPos { x: 0, z: 0 }, RegionPos { x: 1, z: 0 }, RegionPos { x: 5, z: 5 }, RegionPos { x: 0, z: 2 }]
    );
}

#[test]
fn range_bounds() {
    assert!(region_in_range(&RegionPos { x: -1, z: 0 }, 1));
    assert!(!region_in_range(&RegionPos { x: 1, z: 0 }, 1));
    assert!(!region_in_range(&RegionPos { x: 0, z: -2 }, 1));
    assert!(region_in_range(&RegionPos { x: 1000, z: -1000 }, 0));
}

#[test]
fn chunk_slots() {
    assert_eq!(chunk_slot(0, 0, 0), (0, 0));
    assert_eq!(chunk_slot(7, 7, 15), (31, 31));
    assert_eq!(chunk_slot(2, 5, 6), (9, 22));
}
