use notcraft::debug::{
    clear_debug_events, debug_event_enabled, debug_event_handler, DebugBoxRequest, DebugBoxStyle, DebugRegion, drain_debug_events, enable_debug_event, register_debug_event, send_debug_event,
    DebugChannel, DebugEvent,
};
use notcraft::mesher::MesherEvent;
use notcraft::player::{
    camera_controller, terrain_manipulation, CameraController, CameraControllerMode, Highlight,
    HighlightKind, PlayerController, TerrainManipulator, ToolInput,
};
use notcraft::side::Side;
use notcraft::vecmap::VecMap;
use notcraft::world::access::{ChunkSectionInner, MutableChunkAccess};
use notcraft::world::chunk::{ChunkData, ChunkSectionPos};
use notcraft::world::lighting::LightValue;
use notcraft::world::registry::{
    load_registry, BlockDescription, BlockId, BlockMeshType, BlockProperties, CollisionType,
    RegistryManifest,
};
use notcraft::world::{BlockPos, RaycastHit, WorldAccessEvent, WorldLoadEvent};

fn block(name: &str, solid: bool) -> BlockDescription {
    BlockDescription {
        name: name.to_string(),
        properties: BlockProperties {
            collision_type: if solid { CollisionType::Solid } else { CollisionType::NoCollision },
            liquid: false,
            wind_sway: false,
            block_light: 0,
            light_transmissible: !solid,
        },
        mesh_type: if solid { BlockMeshType::FullCube } else { BlockMeshType::NoMesh },
        texture_variants: None,
    }
}

const AIR: BlockId = BlockId(0);
const STONE: BlockId = BlockId(1);
const GLOW: BlockId = BlockId(2);

/// One section of air with a floor of stone at height 10.
fn world() -> MutableChunkAccess {
    let registry = load_registry(RegistryManifest {
        textures: vec![],
        blocks: vec![block("air", false), block("stone", true), block("debug_glow_block", true)],
    });
    let mut access = MutableChunkAccess::new(registry);
    access.add_section(ChunkSectionInner {
        pos: ChunkSectionPos { x: 0, y: 0, z: 0 },
        block_data: ChunkData::Homogeneous(AIR),
        light_data: ChunkData::Homogeneous(LightValue(0)),
    });
    for x in 0..32 {
        for z in 0..32 {
            access.set_block(BlockPos { x, y: 10, z }, STONE);
        }
    }
    access
}

fn no_input() -> ToolInput {
    ToolInput {
        left_rising: false,
        left_falling: false,
        right_rising: false,
        right_falling: false,
        ctrl: false,
        shift: false,
        switch_block: false,
    }
}

fn pos(x: i32, y: i32, z: i32) -> BlockPos {
    BlockPos { x, y, z }
}

#[test]
fn the_camera_follows_and_freezes() {
    let player = PlayerController { player: 7 };
    let mut cam = CameraController { camera: 1, mode: CameraControllerMode::Follow(7) };
    assert_eq!(camera_controller(&mut cam, &player, true, true, false, false), vec![7]);
    assert_eq!(cam.mode, CameraControllerMode::Follow(7));
    // the followed entity is gone: the camera stays where it is
    assert_eq!(camera_controller(&mut cam, &player, false, true, false, false), Vec::<u64>::new());
    assert_eq!(cam.mode, CameraControllerMode::Static);
    // freezing places the camera at the player once more
    let mut cam = CameraController { camera: 1, mode: CameraControllerMode::Follow(7) };
    assert_eq!(camera_controller(&mut cam, &player, true, true, true, false), vec![7, 7]);
    assert_eq!(cam.mode, CameraControllerMode::Static);
    // following again
    assert_eq!(camera_controller(&mut cam, &player, true, true, false, true), Vec::<u64>::new());
    assert_eq!(cam.mode, CameraControllerMode::Follow(7));
    assert_eq!(cam.camera, 1);
}

#[test]
fn single_block_breaking_and_placing() {
    let mut access = world();
    let mut broken = VecMap::new();
    let mut manip = TerrainManipulator { start_pos: None, start_button: None, block_name: "stone" };
    let hit = RaycastHit { pos: pos(4, 10, 4), side: Some(Side::Top) };
    let input = ToolInput { left_rising: true, ..no_input() };
    let shown = terrain_manipulation(&input, Some(hit), pos(4, 14, 4), &mut manip, &mut access, &mut broken);
    assert_eq!(
        shown,
        vec![
            Highlight { a: pos(4, 10, 4), b: pos(4, 10, 4), kind: HighlightKind::Break },
            Highlight { a: pos(4, 11, 4), b: pos(4, 11, 4), kind: HighlightKind::Place },
        ]
    );
    assert_eq!(access.block(pos(4, 10, 4)), Some(AIR));
    assert!(broken.get(&STONE).unwrap().contains(&pos(4, 10, 4)));

    let input = ToolInput { right_rising: true, ..no_input() };
    let hit = RaycastHit { pos: pos(6, 10, 6), side: Some(Side::Top) };
    terrain_manipulation(&input, Some(hit), pos(4, 14, 4), &mut manip, &mut access, &mut broken);
    assert_eq!(access.block(pos(6, 11, 6)), Some(STONE));
    // nothing was hit: nothing happens
    let shown = terrain_manipulation(&input, None, pos(4, 14, 4), &mut manip, &mut access, &mut broken);
    assert!(shown.is_empty());
}

#[test]
fn the_switch_key_changes_the_block() {
    let mut access = world();
    let mut broken = VecMap::new();
    let mut manip = TerrainManipulator { start_pos: None, start_button: None, block_name: "stone" };
    let input = ToolInput { switch_block: true, right_rising: true, ..no_input() };
    let hit = RaycastHit { pos: pos(3, 10, 3), side: Some(Side::Top) };
    terrain_manipulation(&input, Some(hit), pos(3, 14, 3), &mut manip, &mut access, &mut broken);
    assert_eq!(manip.block_name, "debug_glow_block");
    assert_eq!(access.block(pos(3, 11, 3)), Some(GLOW));
    let input = ToolInput { switch_block: true, ..no_input() };
    terrain_manipulation(&input, None, pos(3, 14, 3), &mut manip, &mut access, &mut broken);
    assert_eq!(manip.block_name, "stone");
}

#[test]
fn an_area_is_marked_then_filled() {
    let mut access = world();
    let mut broken = VecMap::new();
    let mut manip = TerrainManipulator { start_pos: None, start_button: None, block_name: "stone" };
    // press the left button with control and shift held to start an area
    let start = ToolInput { left_rising: true, ctrl: true, shift: true, ..no_input() };
    let hit = RaycastHit { pos: pos(1, 10, 1), side: Some(Side::Top) };
    terrain_manipulation(&start, Some(hit), pos(0, 14, 0), &mut manip, &mut access, &mut broken);
    assert_eq!(manip.start_pos, Some(pos(1, 10, 1)));
    assert_eq!(manip.start_button, Some(1));
    // release it over another block: the box between them is broken
    let release = ToolInput { left_falling: true, ..no_input() };
    let hit = RaycastHit { pos: pos(3, 10, 2), side: Some(Side::Top) };
    let shown = terrain_manipulation(&release, Some(hit), pos(0, 14, 0), &mut manip, &mut access, &mut broken);
    assert_eq!(shown, vec![Highlight { a: pos(1, 10, 1), b: pos(3, 10, 2), kind: HighlightKind::Break }]);
    assert_eq!(manip.start_pos, None);
    assert_eq!(manip.start_button, None);
    for x in 1..=3 {
        for z in 1..=2 {
            assert_eq!(access.block(pos(x, 10, z)), Some(AIR));
            assert!(broken.get(&STONE).unwrap().contains(&pos(x, 10, z)));
        }
    }
    assert_eq!(access.block(pos(4, 10, 2)), Some(STONE));
}

#[test]
fn a_line_is_built_towards_the_player() {
    let mut access = world();
    let mut broken = VecMap::new();
    let mut manip = TerrainManipulator { start_pos: None, start_button: None, block_name: "stone" };
    // something solid in the way at height 13
    access.set_block(pos(5, 13, 5), STONE);
    let input = ToolInput { ctrl: true, right_rising: true, ..no_input() };
    let hit = RaycastHit { pos: pos(5, 10, 5), side: Some(Side::Top) };
    let shown = terrain_manipulation(&input, Some(hit), pos(5, 20, 5), &mut manip, &mut access, &mut broken);
    assert_eq!(shown, vec![Highlight { a: pos(5, 11, 5), b: pos(5, 12, 5), kind: HighlightKind::Place }]);
    assert_eq!(access.block(pos(5, 11, 5)), Some(STONE));
    assert_eq!(access.block(pos(5, 12, 5)), Some(STONE));
    assert_eq!(access.block(pos(5, 14, 5)), Some(AIR));
    // the player is below the hit side: nothing is built
    let hit = RaycastHit { pos: pos(7, 10, 7), side: Some(Side::Top) };
    let shown = terrain_manipulation(&input, Some(hit), pos(7, 5, 7), &mut manip, &mut access, &mut broken);
    assert!(shown.is_empty());
    assert_eq!(access.block(pos(7, 11, 7)), Some(AIR));
}

#[test]
fn debug_events_by_name() {
    assert_eq!(WorldLoadEvent::name(), "world-load");
    assert_eq!(WorldAccessEvent::name(), "world-access");
    assert_eq!(MesherEvent::name(), "mesher");
    assert!(debug_event_enabled::<MesherEvent>(None));
    let names = vec!["mesher".to_string()];
    assert!(debug_event_enabled::<MesherEvent>(Some(&names)));
    assert!(!debug_event_enabled::<WorldLoadEvent>(Some(&names)));
}

#[test]
fn debug_channel_queues_only_while_switched_on() {
    let mut channel: DebugChannel<WorldLoadEvent> = DebugChannel::new();
    let a = WorldLoadEvent::Loaded(notcraft::world::ChunkPos { x: 1, z: 2 });
    let b = WorldLoadEvent::Unloaded(notcraft::world::ChunkPos { x: 3, z: 4 });
    send_debug_event(&mut channel, a);
    assert!(drain_debug_events(&mut channel).is_empty());
    enable_debug_event(&mut channel, true);
    send_debug_event(&mut channel, a);
    send_debug_event(&mut channel, b);
    enable_debug_event(&mut channel, true);
    assert_eq!(drain_debug_events(&mut channel), vec![a, b]);
    assert!(drain_debug_events(&mut channel).is_empty());
    send_debug_event(&mut channel, b);
    clear_debug_events(&mut channel);
    assert!(drain_debug_events(&mut channel).is_empty());
    send_debug_event(&mut channel, a);
    enable_debug_event(&mut channel, false);
    enable_debug_event(&mut channel, true);
    assert!(drain_debug_events(&mut channel).is_empty());
}

#[test]
fn debug_channel_registers_by_name() {
    let mut channel: DebugChannel<MesherEvent> = DebugChannel::new();
    let names = vec!["world-load".to_string()];
    register_debug_event(&mut channel, Some(&names));
    let e = MesherEvent::MeshFailed(ChunkSectionPos { x: 0, y: 1, z: 2 });
    send_debug_event(&mut channel, e);
    assert!(drain_debug_events(&mut channel).is_empty());
    let names = vec!["mesher".to_string()];
    register_debug_event(&mut channel, Some(&names));
    send_debug_event(&mut channel, e);
    assert_eq!(drain_debug_events(&mut channel).len(), 1);
    register_debug_event(&mut channel, None);
    send_debug_event(&mut channel, e);
    assert_eq!(drain_debug_events(&mut channel).len(), 1);
}

#[test]
fn debug_events_become_boxes_in_order() {
    let mut load: DebugChannel<WorldLoadEvent> = DebugChannel::new();
    let mut access: DebugChannel<WorldAccessEvent> = DebugChannel::new();
    let mut mesher: DebugChannel<MesherEvent> = DebugChannel::new();
    enable_debug_event(&mut load, true);
    enable_debug_event(&mut mesher, true);
    let chunk = notcraft::world::ChunkPos { x: 1, z: 2 };
    let section = ChunkSectionPos { x: 1, y: 0, z: 2 };
    send_debug_event(&mut load, WorldLoadEvent::Modified(chunk));
    send_debug_event(&mut load, WorldLoadEvent::LoadedSection(section));
    send_debug_event(&mut access, WorldAccessEvent::Read(section));
    send_debug_event(&mut mesher, MesherEvent::Meshed { cheap: true, pos: section });
    send_debug_event(&mut mesher, MesherEvent::MeshFailed(section));
    let boxes = debug_event_handler(&mut load, &mut access, &mut mesher);
    assert_eq!(
        boxes,
        vec![
            DebugBoxRequest { region: DebugRegion::Chunk(chunk), style: DebugBoxStyle::Modified, lifetime_ms: Some(500) },
            DebugBoxRequest { region: DebugRegion::Section(section), style: DebugBoxStyle::Loaded, lifetime_ms: Some(1000) },
            DebugBoxRequest { region: DebugRegion::Section(section), style: DebugBoxStyle::MeshedCheap, lifetime_ms: Some(1000) },
            DebugBoxRequest { region: DebugRegion::Section(section), style: DebugBoxStyle::MeshFailed, lifetime_ms: Some(2000) },
        ]
    );
    assert!(debug_event_handler(&mut load, &mut access, &mut mesher).is_empty());
    enable_debug_event(&mut access, true);
    send_debug_event(&mut access, WorldAccessEvent::Orphaned(section));
    send_debug_event(&mut access, WorldAccessEvent::Written(section));
    assert_eq!(
        debug_event_handler(&mut load, &mut access, &mut mesher),
        vec![
            DebugBoxRequest { region: DebugRegion::Section(section), style: DebugBoxStyle::Orphaned, lifetime_ms: Some(2000) },
            DebugBoxRequest { region: DebugRegion::Section(section), style: DebugBoxStyle::Written, lifetime_ms: None },
        ]
    );
}
