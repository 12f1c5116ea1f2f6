use notcraft::mesher::tracker::{neighbors, MeshTracker};
use notcraft::mesher::{pack_side, ChunkMesherPlugin, MesherMode, TerrainVertex, UnknownMesherMode};
use notcraft::side::Side;
use notcraft::world::chunk::ChunkSectionPos;

#[test]
fn mesher_modes_by_name() {
    assert_eq!(MesherMode::from_str("simple"), Ok(MesherMode::Simple));
    assert_eq!(MesherMode::from_str("greedy"), Ok(MesherMode::Greedy));
    assert_eq!(
        MesherMode::from_str("fancy"),
        Err(UnknownMesherMode { name: "fancy".to_string() })
    );
    assert_eq!(ChunkMesherPlugin::default().mode, MesherMode::Simple);
    assert_eq!(ChunkMesherPlugin::default().with_mode(MesherMode::Greedy).mode, MesherMode::Greedy);
}

#[test]
fn vertices_pack_their_fields() {
    let v = TerrainVertex::pack([1, 2, 3], Side::Top, 15, 3, 7, 2);
    assert_eq!(v.pos_ao, (1 << 22) | (2 << 12) | (3 << 2) | 2);
    assert_eq!(v.light_side_id, 0xf301_0007);
    let w = TerrainVertex::pack([31, 0, 31], Side::Back, 0, 15, 0xffff, 0);
    assert_eq!(w.pos_ao >> 22, 31);
    assert_eq!((w.pos_ao >> 2) & 0x3ff, 31);
    assert_eq!(w.light_side_id, 0x0f06_ffff);
}

#[test]
fn sides_pack_into_three_bits() {
    assert_eq!(pack_side(Side::Top), 0b001);
    assert_eq!(pack_side(Side::Bottom), 0b101);
    assert_eq!(pack_side(Side::Left), 0b000);
    assert_eq!(pack_side(Side::Right), 0b100);
    assert_eq!(pack_side(Side::Front), 0b010);
    assert_eq!(pack_side(Side::Back), 0b110);
}

#[test]
fn a_section_has_26_neighbors() {
    let center = ChunkSectionPos { x: 5, y: -2, z: 0 };
    let ns = neighbors(center);
    assert_eq!(ns.len(), 26);
    assert!(!ns.contains(&center));
    assert!(ns.contains(&ChunkSectionPos { x: 4, y: -3, z: -1 }));
    assert!(ns.contains(&ChunkSectionPos { x: 6, y: -1, z: 1 }));
}

#[test]
fn a_section_is_meshed_once_all_its_neighbors_are_loaded() {
    let mut tracker = MeshTracker::new();
    let center = ChunkSectionPos { x: 0, y: 0, z: 0 };
    let mut entity = 100u64;
    for x in -1..=1 {
        for y in -1..=1 {
            for z in -1..=1 {
                let pos = ChunkSectionPos { x, y, z };
                if pos != center {
                    tracker.add_chunk(pos, entity);
                    entity += 1;
                }
            }
        }
    }
    // the center itself is not loaded yet
    assert_eq!(tracker.next(), None);
    tracker.add_chunk(center, 7);
    assert_eq!(tracker.next(), Some(center));
    assert_eq!(tracker.next(), None);
    assert_eq!(tracker.terrain_entity(center), Some(7));
    assert_eq!(tracker.terrain_entity(ChunkSectionPos { x: 9, y: 9, z: 9 }), None);
    // asking again queues it again, as its neighbors are all there
    tracker.request_mesh(center);
    assert_eq!(tracker.next(), Some(center));
    // a failed mesh is retried
    tracker.chunk_mesh_failed(center);
    assert_eq!(tracker.next(), Some(center));
    // once a neighbor leaves, the center no longer qualifies
    let gone = ChunkSectionPos { x: 1, y: 1, z: 1 };
    let e = tracker.remove_chunk(gone);
    assert!(e >= 100);
    tracker.request_mesh(center);
    assert_eq!(tracker.next(), None);
    assert_eq!(tracker.remove_chunk(center), 7);
}

#[test]
fn a_removed_section_is_not_handed_out() {
    let mut tracker = MeshTracker::new();
    let mut entity = 1u64;
    for x in -1..=1 {
        for y in -1..=1 {
            for z in -1..=1 {
                tracker.add_chunk(ChunkSectionPos { x, y, z }, entity);
                entity += 1;
            }
        }
    }
    let center = ChunkSectionPos { x: 0, y: 0, z: 0 };
    tracker.remove_chunk(center);
    assert_eq!(tracker.next(), None);
    assert_eq!(tracker.terrain_entity(center), None);
}
