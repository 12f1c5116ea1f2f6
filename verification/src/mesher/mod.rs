//! Turning chunk sections into terrain meshes.
pub mod generation;
pub mod tracker;

use crate::side::Side;
use crate::world::chunk::ChunkSectionPos;
use vstd::prelude::*;

verus! {

/// Whether the mesher merges equal neighboring faces.
#[derive(Copy, Clone, Debug, Eq, PartialEq, Hash)]
pub enum MesherMode {
    Simple,
    /// greedy meshing doesn't play well with randomized textures
    Greedy,
}

/// A mesher mode name that is neither "simple" nor "greedy".
#[derive(Clone, Debug, PartialEq, Eq)]
pub struct UnknownMesherMode {
    pub name: String,
}

impl MesherMode {
    /// The mode named "simple" or "greedy".
    pub fn from_str(s: &str) -> (r: Result<Self, UnknownMesherMode>)
        ensures
            s@ == "simple"@ ==> r == Ok::<MesherMode, UnknownMesherMode>(MesherMode::Simple),
            s@ == "greedy"@ ==> r == Ok::<MesherMode, UnknownMesherMode>(MesherMode::Greedy),
            s@ != "simple"@ && s@ != "greedy"@ ==> (r matches Err(e) && e.name@ == s@),
    {
        let name = s.to_owned();
        let simple = "simple".to_owned();
        let greedy = "greedy".to_owned();
        proof {
            reveal_strlit("simple");
            reveal_strlit("greedy");
            assert("simple"@ != "greedy"@) by {
                assert("simple"@[0] != "greedy"@[0]);
            }
        }
        if name == simple {
            Ok(Self::Simple)
        } else if name == greedy {
            Ok(Self::Greedy)
        } else {
            Err(UnknownMesherMode { name })
        }
    }
}

/// The settings of the chunk mesher.
#[derive(Debug)]
pub struct ChunkMesherPlugin {
    pub mode: MesherMode,
}

impl ChunkMesherPlugin {
    pub fn with_mode(self, mode: MesherMode) -> (r: Self)
        ensures
            r.mode == mode,
    {
        let mut this = self;
        this.mode = mode;
        this
    }
}

impl Default for ChunkMesherPlugin {
    fn default() -> (r: Self)
        ensures
            r.mode == MesherMode::Simple,
    {
        Self { mode: MesherMode::Simple }
    }
}

/// Marks an entity that shows a terrain mesh.
#[derive(Copy, Clone, Debug, Eq, PartialEq, Hash, Default)]
pub struct HasTerrainMesh;

/// One vertex of a terrain mesh, packed into two words.
#[derive(Copy, Clone, Debug, PartialEq, Default)]
pub struct TerrainVertex {
    // - 10 bits for each position
    // 5 bits of precisions gets 1-block resolution, an additonal 5 bits gets 16 subdivisions of a
    // block.
    // - 2 bits for AO
    // AO only has 3 possible values, [0,3]
    // lower AO values mean darker shadows
    pub pos_ao: u32,
    // - 4 bits for sky light
    // - 4 bits for block light
    // (5 bit residual)
    // - 1 bit for side
    // - 2 bits for axis
    // - 16 bits for block id
    pub light_side_id: u32,
}

/// The three bits of a side: the axis in the low bits, and a set high bit
/// for the sides that face the negative way.
pub open spec fn spec_pack_side(side: Side) -> u8 {
    match side {
        Side::Top => 0b001,
        Side::Left => 0b000,
        Side::Front => 0b010,
        Side::Bottom => 0b101,
        Side::Right => 0b100,
        Side::Back => 0b110,
    }
}

pub fn pack_side(side: Side) -> (r: u8)
    ensures
        r == spec_pack_side(side),
{
    match side {
        // sides with positive facing normals wrt their own axes have a 0 in their MSB
        Side::Top => 0b001,
        Side::Left => 0b000,
        Side::Front => 0b010,
        // sides with negative facing normals have a 1 in their MSB
        Side::Bottom => 0b101,
        Side::Right => 0b100,
        Side::Back => 0b110,
    }
}

/// The position word: x, y and z in ten bits each above the two bits of
/// ambient occlusion.
pub open spec fn spec_pos_ao(x: u16, y: u16, z: u16, ao: u8) -> u32 {
    ((((((x as u32 & 0x7ff) << 10u32) | (y as u32 & 0x7ff)) << 10u32) | (z as u32 & 0x7ff)) << 2u32) | ao as u32
}

/// The light word: sky and block light above the side, above the block id.
pub open spec fn spec_light_side_id(side: Side, sky_light: u16, block_light: u16, id: u16) -> u32 {
    let light: u32 = (((sky_light & 0xf) as u32) << 4u32) | ((block_light & 0xf) as u32);
    (((light << 8u32) | spec_pack_side(side) as u32) << 16u32) | id as u32
}

impl TerrainVertex {
    pub fn pack(pos: [u16; 3], side: Side, sky_light: u16, block_light: u16, id: u16, ao: u8) -> (r: Self)
        ensures
            r.pos_ao == spec_pos_ao(pos[0], pos[1], pos[2], ao),
            r.light_side_id == spec_light_side_id(side, sky_light, block_light, id),
    {
        let x = pos[0];
        let y = pos[1];
        let z = pos[2];
        let mut pos_ao = 0u32;
        // while 10 bits are reserved for each axis, we only use 5 of them currently.
        pos_ao |= x as u32 & 0x7ff;
        pos_ao <<= 10;
        pos_ao |= y as u32 & 0x7ff;
        pos_ao <<= 10;
        pos_ao |= z as u32 & 0x7ff;
        pos_ao <<= 2;
        pos_ao |= ao as u32;

        let mut light = 0u32;
        light |= ((sky_light & 0xf) as u32) << 4;
        light |= (block_light & 0xf) as u32;

        let mut light_side_id = 0u32;
        light_side_id |= light << 8;
        let packed_side = pack_side(side);
        light_side_id |= packed_side as u32;
        light_side_id <<= 16;
        light_side_id |= id as u32;
        proof {
            let (xx, yy, zz, aa) = (x as u32, y as u32, z as u32, ao as u32);
            assert(((((((0u32 | (xx & 0x7ff)) << 10u32) | (yy & 0x7ff)) << 10u32) | (zz & 0x7ff)) << 2u32) | aa
                == ((((((xx & 0x7ff) << 10u32) | (yy & 0x7ff)) << 10u32) | (zz & 0x7ff)) << 2u32) | aa) by (bit_vector);
            let l = light;
            let p = packed_side as u32;
            let i = id as u32;
            assert((((0u32 | (l << 8u32)) | p) << 16u32) | i == (((l << 8u32) | p) << 16u32) | i) by (bit_vector);
            let s = ((sky_light & 0xf) as u32);
            let b = ((block_light & 0xf) as u32);
            assert((0u32 | (s << 4u32)) | b == (s << 4u32) | b) by (bit_vector);
        }
        Self { pos_ao, light_side_id }
    }
}

/// The fields of a packed vertex are found again, when they fit their bits.
pub proof fn lemma_pack_fields(x: u16, y: u16, z: u16, ao: u8, side: Side, sky_light: u16, block_light: u16, id: u16)
    requires
        x < 1024,
        y < 1024,
        z < 1024,
        ao < 4,
        sky_light < 16,
        block_light < 16,
    ensures
        (spec_pos_ao(x, y, z, ao) >> 22u32) == x as u32,
        (spec_pos_ao(x, y, z, ao) >> 12u32) & 0x3ff == y as u32,
        (spec_pos_ao(x, y, z, ao) >> 2u32) & 0x3ff == z as u32,
        spec_pos_ao(x, y, z, ao) & 3 == ao as u32,
        spec_light_side_id(side, sky_light, block_light, id) >> 28u32 == sky_light as u32,
        (spec_light_side_id(side, sky_light, block_light, id) >> 24u32) & 0xf == block_light as u32,
        (spec_light_side_id(side, sky_light, block_light, id) >> 16u32) & 0x7 == spec_pack_side(side) as u32,
        spec_light_side_id(side, sky_light, block_light, id) & 0xffff == id as u32,
{
    let (xx, yy, zz, aa) = (x as u32, y as u32, z as u32, ao as u32);
    assert({
        let v = ((((((xx & 0x7ff) << 10u32) | (yy & 0x7ff)) << 10u32) | (zz & 0x7ff)) << 2u32) | aa;
        &&& v >> 22u32 == xx
        &&& (v >> 12u32) & 0x3ff == yy
        &&& (v >> 2u32) & 0x3ff == zz
        &&& v & 3 == aa
    }) by (bit_vector)
        requires
            xx < 1024,
            yy < 1024,
            zz < 1024,
            aa < 4,
    ;
    let p = spec_pack_side(side) as u32;
    assert(p < 8);
    let (s, b, i) = ((sky_light & 0xf) as u32, (block_light & 0xf) as u32, id as u32);
    assert(sky_light & 0xf == sky_light && block_light & 0xf == block_light) by (bit_vector)
        requires
            sky_light < 16,
            block_light < 16,
    ;
    assert({
        let v = (((((s << 4u32) | b) << 8u32) | p) << 16u32) | i;
        &&& v >> 28u32 == s
        &&& (v >> 24u32) & 0xf == b
        &&& (v >> 16u32) & 0x7 == p
        &&& v & 0xffff == i
    }) by (bit_vector)
        requires
            s < 16,
            b < 16,
            p < 8,
            i < 0x10000,
    ;
}

/// The vertices and triangle indices of a chunk section's terrain.
#[derive(Clone, Debug, PartialEq, Default)]
pub struct TerrainMesh {
    pub vertices: Vec<TerrainVertex>,
    pub indices: Vec<u32>,
}

/// The vertices and triangle indices of a chunk section's see-through
/// terrain.
#[derive(Clone, Debug, PartialEq, Default)]
pub struct TerrainTransparencyMesh {
    pub vertices: Vec<TerrainVertex>,
    pub indices: Vec<u32>,
}

/// What the mesher reports.
#[derive(Copy, Clone, Debug, Eq, PartialEq, Hash)]
pub enum MesherEvent {
    Meshed { cheap: bool, pos: ChunkSectionPos },
    MeshFailed(ChunkSectionPos),
}

} // verus!
