use notcraft::side::Faces;
use notcraft::world::access::{ChunkSectionInner, MutableChunkAccess};
use notcraft::world::chunk::{ChunkData, ChunkSectionPos};
use notcraft::world::generation::SurfaceHeightmap;
use notcraft::world::lighting::{full_sky_light, LightValue, SkyLightColumns, SkyLightNode};
use notcraft::world::propagation::{propagate_block_light, propagate_sky_light, LightUpdateQueues};
use notcraft::world::registry::{
    load_registry, BlockDescription, BlockId, BlockMeshType, BlockProperties, BlockRegistry,
    CollisionType, RegistryManifest,
};
use notcraft::world::BlockPos;

fn block(name: &str, light: u16, transmissible: bool) -> BlockDescription {
    BlockDescription {
        name: name.to_string(),
        properties: BlockProperties {
            collision_type: if transmissible { CollisionType::NoCollision } else { CollisionType::Solid },
            liquid: false,
            wind_sway: false,
            block_light: light,
            light_transmissible: transmissible,
        },
        mesh_type: if transmissible { BlockMeshType::NoMesh } else { BlockMeshType::FullCube },
        texture_variants: None,
    }
}

fn registry() -> BlockRegistry {
    load_registry(RegistryManifest {
        textures: vec![],
        blocks: vec![block("air", 0, true), block("stone", 0, false), block("lamp", 14, false)],
    })
}

fn access_with_air_section() -> MutableChunkAccess {
    let mut access = MutableChunkAccess::new(registry());
    access.add_section(ChunkSectionInner {
        pos: ChunkSectionPos { x: 0, y: 0, z: 0 },
        block_data: ChunkData::Homogeneous(BlockId(0)),
        light_data: ChunkData::Homogeneous(LightValue(0)),
    });
    access
}

fn block_light(access: &MutableChunkAccess, x: i32, y: i32, z: i32) -> u16 {
    access.light(BlockPos { x, y, z }).unwrap().block()
}

fn sky_light(access: &MutableChunkAccess, x: i32, y: i32, z: i32) -> u16 {
    access.light(BlockPos { x, y, z }).unwrap().sky()
}

#[test]
fn light_values_pack_sky_and_block_light() {
    let v = LightValue::pack(12, 3);
    assert_eq!(v.raw(), 0xc3);
    assert_eq!(v.sky(), 12);
    assert_eq!(v.block(), 3);
    assert_eq!(v.intensity(), 12);
    assert_eq!(LightValue::pack(2, 9).intensity(), 9);
    assert_eq!(full_sky_light(), LightValue(0xf0));
    assert_eq!(LightValue::new(0x5a).combine_max(LightValue::new(0x39)), LightValue(0x5a));
    assert_eq!(LightValue::new(0x1f).combine_max(LightValue::new(0xe0)), LightValue(0xef));
}

#[test]
fn a_lamp_lights_its_surroundings() {
    let mut access = access_with_air_section();
    let lamp = BlockPos { x: 16, y: 16, z: 16 };
    assert_eq!(access.set_block(lamp, BlockId(2)), Some(()));
    let mut queues = LightUpdateQueues::new();
    queues.queue_blocklight_updates(&access, &[(lamp, 14)]);
    assert!(propagate_block_light(&mut queues, &mut access));
    assert_eq!(block_light(&access, 16, 16, 16), 14);
    assert_eq!(block_light(&access, 17, 16, 16), 13);
    assert_eq!(block_light(&access, 16, 12, 16), 10);
    assert_eq!(block_light(&access, 18, 18, 16), 10);
    assert_eq!(block_light(&access, 16, 16, 29), 1);
    assert_eq!(block_light(&access, 16, 16, 30), 0);
    // the sky light is left alone
    assert_eq!(sky_light(&access, 17, 16, 16), 0);
    // every section whose light changed is to be rebuilt
    assert!(access.light(BlockPos { x: 0, y: 0, z: 0 }).is_some());
}

#[test]
fn removing_the_lamp_takes_its_light_away() {
    let mut access = access_with_air_section();
    let lamp = BlockPos { x: 16, y: 16, z: 16 };
    access.set_block(lamp, BlockId(2));
    let mut queues = LightUpdateQueues::new();
    queues.queue_blocklight_updates(&access, &[(lamp, 14)]);
    assert!(propagate_block_light(&mut queues, &mut access));
    access.set_block(lamp, BlockId(0));
    queues.queue_blocklight_updates(&access, &[(lamp, 0)]);
    assert!(propagate_block_light(&mut queues, &mut access));
    assert_eq!(block_light(&access, 16, 16, 16), 0);
    assert_eq!(block_light(&access, 17, 16, 16), 0);
    assert_eq!(block_light(&access, 16, 20, 16), 0);
}

#[test]
fn stone_blocks_the_light() {
    let mut access = access_with_air_section();
    let lamp = BlockPos { x: 16, y: 16, z: 16 };
    // a wall of stone at x = 18
    for y in 0..32 {
        for z in 0..32 {
            access.set_block(BlockPos { x: 18, y, z }, BlockId(1));
        }
    }
    access.set_block(lamp, BlockId(2));
    let mut queues = LightUpdateQueues::new();
    queues.queue_blocklight_updates(&access, &[(lamp, 14)]);
    assert!(propagate_block_light(&mut queues, &mut access));
    assert_eq!(block_light(&access, 17, 16, 16), 13);
    assert_eq!(block_light(&access, 18, 16, 16), 0);
    assert_eq!(block_light(&access, 19, 16, 16), 0);
}

#[test]
fn light_that_leaves_the_held_sections_is_reported() {
    let mut access = access_with_air_section();
    let lamp = BlockPos { x: 1, y: 16, z: 16 };
    access.set_block(lamp, BlockId(2));
    let mut queues = LightUpdateQueues::new();
    queues.queue_blocklight_updates(&access, &[(lamp, 14)]);
    assert!(!propagate_block_light(&mut queues, &mut access));
}

#[test]
fn sky_light_spreads_from_a_column() {
    let mut access = access_with_air_section();
    let mut queues = LightUpdateQueues::new();
    queues.queue_skylight_updates(&access, 16, 16, 15, 17, 15);
    assert!(propagate_sky_light(&mut queues, &mut access));
    assert_eq!(sky_light(&access, 16, 15, 16), 15);
    assert_eq!(sky_light(&access, 16, 16, 16), 15);
    assert_eq!(sky_light(&access, 17, 15, 16), 14);
    assert_eq!(sky_light(&access, 16, 10, 16), 10);
    assert_eq!(sky_light(&access, 20, 16, 20), 7);
    assert_eq!(block_light(&access, 17, 15, 16), 0);
}

#[test]
fn sky_light_nodes_track_the_top_of_a_column() {
    let mut node = SkyLightNode::init(10, false);
    assert_eq!(node.top(), 10);
    assert_eq!(node.lookup(5), (i32::MIN, 10, true));
    assert_eq!(node.lookup(12), (10, i32::MAX, false));
    node.update(20, true);
    assert_eq!(node.top(), 21);
    assert_eq!(node.lookup(20), (20, 21, true));
    assert_eq!(node.lookup(15), (10, 20, false));
    node.update(20, false);
    assert_eq!(node.top(), 10);
    node.update(9, false);
    assert_eq!(node.top(), 9);
    assert_eq!(node.lookup(9).2, false);
    assert_eq!(node.lookup(8).2, true);
}

#[test]
fn sky_columns_start_at_the_surface() {
    let mut heights = vec![0i32; 1024];
    heights[32 * 3 + 4] = 17;
    let map = SurfaceHeightmap::new(heights, 7);
    assert_eq!(map.min(), 0);
    assert_eq!(map.max(), 17);
    let mut columns = SkyLightColumns::initialize(&map);
    assert_eq!(columns.node(3, 4).top(), 17);
    assert_eq!(columns.node(0, 0).top(), 0);
    columns.node_mut(3, 4).update(30, true);
    assert_eq!(columns.node(3, 4).top(), 31);
    let faces = Faces { top: 1, bottom: 2, right: 3, left: 4, front: 5, back: 6 };
    assert_eq!(faces.top, 1);
}
