use notcraft::mesher::generation::homogenous_should_mesh;
use notcraft::side::Faces;
use notcraft::vecmap::{VecMap, VecSet};
use notcraft::world::access::{default_light, ChunkSectionInner, MutableChunkAccess};
use notcraft::world::chunk::{ArrayChunk, BlockUpdate, ChunkData, ChunkSectionPos, ChunkSectionUpdate};
use notcraft::world::chunk_access::{apply_chunk_updates, write_all_chunk_updates, ChunkAccess};
use notcraft::world::chunk_update::write_chunk_updates_to_chunk;
use notcraft::world::generation::SurfaceHeightmap;
use notcraft::world::lighting::{LightValue, SkyLightColumns};
use notcraft::world::registry::{
    load_registry, BlockDescription, BlockId, BlockMeshType, BlockProperties, BlockRegistry,
    CollisionType, RegistryManifest,
};
use notcraft::world::section_update::ChunkUpdateContext;
use notcraft::world::{BlockPos, BlockUpdateEvent, ChunkPos};

fn block(name: &str, light: u16, transmissible: bool) -> BlockDescription {
    BlockDescription {
        name: name.to_string(),
        properties: BlockProperties {
            collision_type: if transmissible { CollisionType::NoCollision } else { CollisionType::Solid },
            liquid: false,
            wind_sway: false,
            block_light: light,
            light_transmissible: transmissible,
        },
        mesh_type: if transmissible { BlockMeshType::NoMesh } else { BlockMeshType::FullCube },
        texture_variants: None,
    }
}

fn registry() -> BlockRegistry {
    load_registry(RegistryManifest {
        textures: vec![],
        blocks: vec![block("air", 0, true), block("stone", 0, false), block("lamp", 14, false)],
    })
}

/// One section of air, lit by the sky everywhere.
fn sunny_section() -> MutableChunkAccess {
    let mut access = MutableChunkAccess::new(registry());
    access.add_section(ChunkSectionInner {
        pos: ChunkSectionPos { x: 0, y: 0, z: 0 },
        block_data: ChunkData::Homogeneous(BlockId(0)),
        light_data: ChunkData::Homogeneous(LightValue::pack(15, 0)),
    });
    access
}

/// Sky columns that are open from height 10 up.
fn columns() -> SkyLightColumns {
    SkyLightColumns::initialize(&SurfaceHeightmap::new(vec![10; 1024], 0))
}

fn context() -> ChunkUpdateContext {
    ChunkUpdateContext { rebuild: VecSet::new(), block_updates: VecMap::new(), chunk: ChunkPos { x: 0, z: 0 } }
}

fn sky(access: &MutableChunkAccess, x: i32, y: i32, z: i32) -> u16 {
    access.light(BlockPos { x, y, z }).unwrap().sky()
}

fn block_light(access: &MutableChunkAccess, x: i32, y: i32, z: i32) -> u16 {
    access.light(BlockPos { x, y, z }).unwrap().block()
}

#[test]
fn a_stone_in_the_sky_casts_a_shadow() {
    let mut access = sunny_section();
    let mut sky_columns = columns();
    let mut ctx = context();
    let updates = vec![(0, vec![ChunkSectionUpdate { index: [16, 20, 16], id: BlockId(1) }])];
    assert!(write_chunk_updates_to_chunk(&updates, &mut sky_columns, &mut access, &mut ctx));
    let pos = BlockPos { x: 16, y: 20, z: 16 };
    assert_eq!(access.block(pos), Some(BlockId(1)));
    assert_eq!(ctx.block_updates.get(&pos), Some(&BlockUpdate { old_id: BlockId(0), new_id: BlockId(1) }));
    assert!(ctx.rebuild.contains(&ChunkSectionPos { x: 0, y: 0, z: 0 }));
    // the column is now open to the sky only above the stone
    assert_eq!(sky_columns.node(16, 16).top(), 21);
    assert_eq!(sky_columns.node(15, 16).top(), 10);
    // below the stone the sky light comes in from the side
    assert_eq!(sky(&access, 16, 19, 16), 14);
    assert_eq!(sky(&access, 16, 12, 16), 14);
    assert_eq!(sky(&access, 16, 20, 16), 0);
    assert_eq!(sky(&access, 16, 21, 16), 15);
    assert_eq!(sky(&access, 16, 9, 16), 15);
    assert_eq!(sky(&access, 15, 19, 16), 15);
}

#[test]
fn a_placed_lamp_lights_its_surroundings() {
    let mut access = sunny_section();
    let mut sky_columns = columns();
    let mut ctx = context();
    let updates = vec![(0, vec![ChunkSectionUpdate { index: [16, 16, 16], id: BlockId(2) }])];
    assert!(write_chunk_updates_to_chunk(&updates, &mut sky_columns, &mut access, &mut ctx));
    assert_eq!(block_light(&access, 16, 16, 16), 14);
    assert_eq!(block_light(&access, 17, 16, 16), 13);
    assert_eq!(block_light(&access, 16, 13, 16), 11);
    assert_eq!(sky_columns.node(16, 16).top(), 17);
}

#[test]
fn writing_the_same_block_records_nothing() {
    let mut access = sunny_section();
    let mut sky_columns = columns();
    let mut ctx = context();
    let updates = vec![(0, vec![ChunkSectionUpdate { index: [3, 4, 5], id: BlockId(0) }])];
    assert!(write_chunk_updates_to_chunk(&updates, &mut sky_columns, &mut access, &mut ctx));
    assert!(ctx.block_updates.is_empty());
    assert!(ctx.rebuild.is_empty());
    assert_eq!(sky_columns.node(3, 5).top(), 10);
    // a written block that lets light through gives up its sky light, and
    // takes it back from its neighbors, one level lower
    assert_eq!(sky(&access, 3, 4, 5), 14);
    assert_eq!(sky(&access, 3, 5, 5), 15);
}

#[test]
fn a_shadow_that_leaves_the_held_sections_is_reported() {
    let mut access = sunny_section();
    let mut sky_columns = SkyLightColumns::initialize(&SurfaceHeightmap::new(vec![0; 1024], 0));
    let mut ctx = context();
    let updates = vec![(0, vec![ChunkSectionUpdate { index: [16, 20, 16], id: BlockId(1) }])];
    // the column darkens down to height 0, whose neighbor below is not held
    assert!(!write_chunk_updates_to_chunk(&updates, &mut sky_columns, &mut access, &mut ctx));
    assert_eq!(access.block(BlockPos { x: 16, y: 20, z: 16 }), Some(BlockId(1)));
    assert_eq!(sky_columns.node(16, 16).top(), 21);
}

#[test]
fn homogeneous_sections_mesh_only_against_open_neighbors() {
    let registry = registry();
    let stone = Some(Some(BlockId(1)));
    let all_stone = Faces { top: stone, bottom: stone, right: stone, left: stone, front: stone, back: stone };
    assert_eq!(homogenous_should_mesh(&registry, BlockId(1), all_stone), Some(false));
    let open_top = Faces { top: Some(Some(BlockId(0))), ..all_stone };
    assert_eq!(homogenous_should_mesh(&registry, BlockId(1), open_top), Some(true));
    // a neighbor made of many kinds of blocks asks for a face
    let mixed_back = Faces { back: Some(None), ..all_stone };
    assert_eq!(homogenous_should_mesh(&registry, BlockId(1), mixed_back), Some(true));
    let unloaded_left = Faces { left: None, ..open_top };
    assert_eq!(homogenous_should_mesh(&registry, BlockId(1), unloaded_left), None);
    // air never needs a mesh
    assert_eq!(homogenous_should_mesh(&registry, BlockId(0), open_top), Some(false));
}

#[test]
fn sections_start_lit_by_their_blocks() {
    let registry = registry();
    assert_eq!(default_light(&registry, BlockId(0)), LightValue(0xf0));
    assert_eq!(default_light(&registry, BlockId(1)), LightValue(0x00));
    assert_eq!(default_light(&registry, BlockId(2)), LightValue(0x0e));
    let pos = ChunkSectionPos { x: 1, y: -2, z: 3 };
    let air = ChunkSectionInner::initialize(pos, ChunkData::Homogeneous(BlockId(0)), &registry);
    assert_eq!(air.pos, pos);
    assert_eq!(air.light_data, ChunkData::Homogeneous(LightValue(0xf0)));
    let mut blocks = vec![BlockId(1); 32768];
    blocks[5] = BlockId(2);
    blocks[6] = BlockId(0);
    let mixed = ChunkSectionInner::initialize(pos, ChunkData::Array(ArrayChunk::try_from(blocks).unwrap()), &registry);
    match mixed.light_data {
        ChunkData::Array(lights) => {
            assert_eq!(lights.data()[0], LightValue(0x00));
            assert_eq!(lights.data()[5], LightValue(0x0e));
            assert_eq!(lights.data()[6], LightValue(0xf0));
        }
        ChunkData::Homogeneous(_) => panic!("expected one light per block"),
    }
}

#[test]
fn queued_writes_are_applied_chunk_by_chunk() {
    let mut world = sunny_section();
    world.add_section(ChunkSectionInner {
        pos: ChunkSectionPos { x: 1, y: 0, z: 0 },
        block_data: ChunkData::Homogeneous(BlockId(0)),
        light_data: ChunkData::Homogeneous(LightValue::pack(15, 0)),
    });
    let mut access = ChunkAccess::new();
    access.set_block(BlockPos { x: 16, y: 20, z: 16 }, BlockId(1));
    access.set_block(BlockPos { x: 48, y: 20, z: 16 }, BlockId(1));
    // written again: the later write wins
    access.set_block(BlockPos { x: 16, y: 20, z: 16 }, BlockId(0));
    let mut skies = VecMap::new();
    skies.insert(ChunkPos { x: 0, z: 0 }, columns());
    skies.insert(ChunkPos { x: 1, z: 0 }, columns());
    let mut rebuild = VecSet::new();
    let mut block_updates = VecMap::new();
    assert!(write_all_chunk_updates(&mut access, &mut world, &mut skies, &mut rebuild, &mut block_updates));
    assert_eq!(world.block(BlockPos { x: 16, y: 20, z: 16 }), Some(BlockId(0)));
    assert_eq!(world.block(BlockPos { x: 48, y: 20, z: 16 }), Some(BlockId(1)));
    assert_eq!(
        block_updates.get(&BlockPos { x: 48, y: 20, z: 16 }),
        Some(&BlockUpdate { old_id: BlockId(0), new_id: BlockId(1) })
    );
    // the record holds the last write that changed the block
    assert_eq!(
        block_updates.get(&BlockPos { x: 16, y: 20, z: 16 }),
        Some(&BlockUpdate { old_id: BlockId(1), new_id: BlockId(0) })
    );
    assert!(rebuild.contains(&ChunkSectionPos { x: 1, y: 0, z: 0 }));
    assert_eq!(skies.get(&ChunkPos { x: 1, z: 0 }).unwrap().node(16, 16).top(), 21);
    assert_eq!(sky(&world, 48, 19, 16), 14);
    // nothing is left queued: a second pass changes nothing
    let mut more_updates = VecMap::new();
    assert!(write_all_chunk_updates(&mut access, &mut world, &mut skies, &mut rebuild, &mut more_updates));
    assert!(more_updates.is_empty());
}

#[test]
fn applying_updates_reports_the_changes() {
    let mut world = sunny_section();
    let mut access = ChunkAccess::new();
    access.set_block(BlockPos { x: 5, y: 25, z: 7 }, BlockId(1));
    access.set_block(BlockPos { x: 6, y: 25, z: 7 }, BlockId(0));
    let mut skies = VecMap::new();
    skies.insert(ChunkPos { x: 0, z: 0 }, columns());
    let (ok, applied) = apply_chunk_updates(&mut access, &mut world, &mut skies);
    assert!(ok);
    assert_eq!(applied.modified_sections, vec![ChunkSectionPos { x: 0, y: 0, z: 0 }]);
    // writing air over air changes nothing
    assert_eq!(
        applied.block_updates,
        vec![BlockUpdateEvent { pos: BlockPos { x: 5, y: 25, z: 7 }, old_id: BlockId(0), new_id: BlockId(1) }]
    );
}

#[test]
fn homogeneous_set_to_same_value_stays_homogeneous() {
    let mut data = ChunkData::Homogeneous(BlockId(3));
    data.set([40, 0, 0], BlockId(3));
    assert_eq!(data, ChunkData::Homogeneous(BlockId(3)));
    data.set([1, 2, 3], BlockId(3));
    assert_eq!(data, ChunkData::Homogeneous(BlockId(3)));
    data.set([1, 2, 3], BlockId(4));
    assert_eq!(data.get([1, 2, 3]), BlockId(4));
    assert_eq!(data.get([1, 2, 4]), BlockId(3));
}

#[test]
fn a_removed_lamp_takes_its_light_away() {
    let mut access = sunny_section();
    let mut sky_columns = columns();
    let mut ctx = context();
    let place = vec![(0, vec![ChunkSectionUpdate { index: [16, 16, 16], id: BlockId(2) }])];
    assert!(write_chunk_updates_to_chunk(&place, &mut sky_columns, &mut access, &mut ctx));
    assert_eq!(block_light(&access, 18, 16, 16), 12);
    let mut ctx = context();
    let remove = vec![(0, vec![ChunkSectionUpdate { index: [16, 16, 16], id: BlockId(0) }])];
    assert!(write_chunk_updates_to_chunk(&remove, &mut sky_columns, &mut access, &mut ctx));
    for x in 10..23 {
        for y in 10..23 {
            assert_eq!(block_light(&access, x, y, 16), 0);
        }
    }
}
