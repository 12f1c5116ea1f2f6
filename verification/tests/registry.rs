use notcraft::side::Faces;
use notcraft::world::registry::{
    air, load_registry, BlockDescription, BlockId, BlockMeshType, BlockProperties,
    BlockTextureReference, CollisionType, RegistryManifest, TextureId, TexturePoolId,
};

fn props(collision_type: CollisionType, light: u16, transmissible: bool) -> BlockProperties {
    BlockProperties { collision_type, liquid: false, wind_sway: false, block_light: light, light_transmissible: transmissible }
}

fn manifest() -> RegistryManifest {
    let grass_faces = Faces { top: Some("grass".to_string()), bottom: None, right: None, left: None, front: None, back: None };
    RegistryManifest {
        textures: vec![
            ("grass".to_string(), vec!["grass_top.png".to_string(), "grass_side.png".to_string()]),
            ("dirt".to_string(), vec!["dirt.png".to_string()]),
        ],
        blocks: vec![
            BlockDescription {
                name: "air".to_string(),
                properties: props(CollisionType::NoCollision, 0, true),
                mesh_type: BlockMeshType::NoMesh,
                texture_variants: None,
            },
            BlockDescription {
                name: "grass".to_string(),
                properties: props(CollisionType::Solid, 0, false),
                mesh_type: BlockMeshType::FullCube,
                texture_variants: Some(vec![BlockTextureReference { default: Some("dirt".to_string()), faces: grass_faces }]),
            },
            BlockDescription {
                name: "stone".to_string(),
                properties: props(CollisionType::Solid, 0, false),
                mesh_type: BlockMeshType::FullCube,
                texture_variants: Some(vec![BlockTextureReference::default()]),
            },
            BlockDescription {
                name: "water".to_string(),
                properties: BlockProperties { collision_type: CollisionType::Liquid, liquid: true, wind_sway: true, block_light: 2, light_transmissible: true },
                mesh_type: BlockMeshType::Cross,
                texture_variants: None,
            },
            BlockDescription {
                name: "stone".to_string(),
                properties: props(CollisionType::Solid, 7, false),
                mesh_type: BlockMeshType::FullCube,
                texture_variants: None,
            },
        ],
    }
}

#[test]
fn pools_and_paths_in_manifest_order() {
    let registry = load_registry(manifest());
    let paths: Vec<&str> = registry.texture_paths().iter().map(|s| s.as_str()).collect();
    assert_eq!(paths, vec!["unknown.png", "grass_top.png", "grass_side.png", "dirt.png"]);
    assert_eq!(registry.pool_textures(TexturePoolId(0)), &[TextureId(0)]);
    assert_eq!(registry.pool_textures(TexturePoolId(1)), &[TextureId(1), TextureId(2)]);
    assert_eq!(registry.pool_textures(TexturePoolId(2)), &[TextureId(3)]);
}

#[test]
fn blocks_by_name_and_properties() {
    let registry = load_registry(manifest());
    assert_eq!(registry.get_id("air"), air());
    assert_eq!(registry.get_id("grass"), BlockId(1));
    // the last block of a name wins
    assert_eq!(registry.get_id("stone"), BlockId(4));
    assert_eq!(registry.get_id("water"), BlockId(3));
    assert!(registry.collision_type(BlockId(1)).is_solid());
    assert!(registry.collision_type(BlockId(3)).is_liquid());
    assert!(registry.liquid(BlockId(3)));
    assert!(registry.wind_sway(BlockId(3)));
    assert_eq!(registry.block_light(BlockId(4)), 7);
    assert!(registry.light_transmissible(BlockId(0)));
    assert!(!registry.light_transmissible(BlockId(2)));
    assert_eq!(registry.mesh_type(BlockId(3)), BlockMeshType::Cross);
    assert_eq!(BlockMeshType::default(), BlockMeshType::FullCube);
}

#[test]
fn faces_take_their_pool_or_the_default_or_unknown() {
    let registry = load_registry(manifest());
    let grass = registry.block_textures(BlockId(1)).unwrap();
    assert_eq!(grass.len(), 1);
    assert_eq!(grass[0].top, TexturePoolId(1));
    assert_eq!(grass[0].bottom, TexturePoolId(2));
    assert_eq!(grass[0].front, TexturePoolId(2));
    let stone = registry.block_textures(BlockId(2)).unwrap();
    assert_eq!(stone[0].top, TexturePoolId(0));
    assert_eq!(stone[0].back, TexturePoolId(0));
    assert!(registry.block_textures(BlockId(0)).is_none());
}
