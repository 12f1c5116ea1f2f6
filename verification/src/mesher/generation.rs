//! Mesh data made out of world data.
//!
//! [`MeshBuilder`] holds the current mesh, and functions like
//! [`mesh_cross`] and [`mesh_full_cube_side`] add to it. The
//! [`MeshCreationContext`] holds all the state needed to mesh one chunk
//! section.
use super::{spec_light_side_id, spec_pos_ao, TerrainMesh, TerrainVertex};
use crate::side::{spec_facing_positive, Side};
use crate::world::access::ChunkSectionInner;
use crate::world::chunk::{chunk_index, ChunkSectionPos};
use crate::world::lighting::{max_u16, LightValue};
use crate::side::{spec_normal, spec_uvl_to_xyz};
use crate::world::registry::{BlockId, BlockMeshType, BlockRegistry, TextureId};
use crate::random::{choose_one, rng_from_entropy};
use crate::world::registry::TexturePoolId;
use crate::side::Faces;
use rand::rngs::SmallRng;
use vstd::prelude::*;

verus! {

/// Which of three neighboring sections holds a coordinate, and where in it.
pub open spec fn spec_split(n: int) -> (int, int) {
    if n < 0 {
        (0, n + 32)
    } else if n >= 32 {
        (2, n - 32)
    } else {
        (1, n)
    }
}

/// The section (0, 1 or 2 along the axis) that holds the coordinate `n` of
/// the center section, and its offset there.
pub fn chunks_index_and_offset(n: i16) -> (r: (usize, usize))
    requires
        -32 <= n < 64,
    ensures
        r.0 as int == spec_split(n as int).0,
        r.1 as int == spec_split(n as int).1,
{
    if n < 0 {
        (0, (n + 32) as usize)
    } else if n >= 32 {
        (2, (n - 32) as usize)
    } else {
        (1, n as usize)
    }
}

/// Index into the flat voxel face slice using a 2D coordinate.
pub fn idx(u: u16, v: u16) -> (r: usize)
    requires
        u < 32,
        v < 32,
    ensures
        r == 32 * (u as int) + (v as int),
        r < 1024,
{
    32 * u as usize + v as usize
}

/// The 27 sections around a section and the section itself, for reading
/// the blocks and light next to the center section.
pub struct ChunkNeighbors {
    chunks: Vec<ChunkSectionInner>,
}

impl ChunkNeighbors {
    pub closed spec fn wf(&self) -> bool {
        &&& self.chunks@.len() == 27
        &&& forall|i: int| 0 <= i < 27 ==> (#[trigger] self.chunks@[i]).block_data.wf() && self.chunks@[i].light_data.wf()
    }

    /// The section `(cx, cy, cz)`, each from 0 to 2, of the neighborhood.
    pub closed spec fn chunk(&self, cx: int, cy: int, cz: int) -> ChunkSectionInner {
        self.chunks@[9 * cx + 3 * cy + cz]
    }

    /// The block at a coordinate relative to the center section's origin.
    pub open spec fn block_at(&self, x: int, y: int, z: int) -> BlockId {
        let (cx, mx) = spec_split(x);
        let (cy, my) = spec_split(y);
        let (cz, mz) = spec_split(z);
        self.chunk(cx, cy, cz).block_data@[chunk_index(mx, my, mz)]
    }

    /// The light at a coordinate relative to the center section's origin.
    pub open spec fn light_at(&self, x: int, y: int, z: int) -> LightValue {
        let (cx, mx) = spec_split(x);
        let (cy, my) = spec_split(y);
        let (cz, mz) = spec_split(z);
        self.chunk(cx, cy, cz).light_data@[chunk_index(mx, my, mz)]
    }

    /// Every block of the neighborhood is a kind below `n`.
    pub closed spec fn ids_below(&self, n: nat) -> bool {
        forall|i: int, k: int| 0 <= i < 27 && 0 <= k < 32768 ==> (#[trigger] self.chunks@[i].block_data@[k]).0 < n
    }

    pub proof fn lemma_block_below(&self, n: nat, x: int, y: int, z: int)
        requires
            self.wf(),
            self.ids_below(n),
            -32 <= x < 64,
            -32 <= y < 64,
            -32 <= z < 64,
        ensures
            self.block_at(x, y, z).0 < n,
    {
        let (cx, mx) = spec_split(x);
        let (cy, my) = spec_split(y);
        let (cz, mz) = spec_split(z);
        assert(0 <= chunk_index(mx, my, mz) < 32768);
        assert(0 <= 9 * cx + 3 * cy + cz < 27);
    }

    /// The neighborhood of the sections given in the order of `dx`, then
    /// `dy`, then `dz`, each from -1 to 1.
    pub fn new(chunks: Vec<ChunkSectionInner>) -> (r: Self)
        requires
            chunks@.len() == 27,
            forall|i: int| 0 <= i < 27 ==> (#[trigger] chunks@[i]).block_data.wf() && chunks@[i].light_data.wf(),
        ensures
            r.wf(),
            forall|n: nat| (forall|i: int, k: int| 0 <= i < 27 && 0 <= k < 32768 ==> (#[trigger] chunks@[i].block_data@[k]).0 < n) ==> #[trigger] r.ids_below(n),
            forall|cx: int, cy: int, cz: int| 0 <= cx < 3 && 0 <= cy < 3 && 0 <= cz < 3 ==> #[trigger] r.chunk(cx, cy, cz) == chunks@[9 * cx + 3 * cy + cz],
    {
        ChunkNeighbors { chunks }
    }

    fn section_index(pos: [i16; 3]) -> (r: (usize, [usize; 3]))
        requires
            -32 <= pos[0] < 64,
            -32 <= pos[1] < 64,
            -32 <= pos[2] < 64,
        ensures
            r.0 < 27,
            r.0 == 9 * spec_split(pos[0] as int).0 + 3 * spec_split(pos[1] as int).0 + spec_split(pos[2] as int).0,
            r.1[0] == spec_split(pos[0] as int).1,
            r.1[1] == spec_split(pos[1] as int).1,
            r.1[2] == spec_split(pos[2] as int).1,
            r.1[0] < 32 && r.1[1] < 32 && r.1[2] < 32,
    {
        let (cx, mx) = chunks_index_and_offset(pos[0]);
        let (cy, my) = chunks_index_and_offset(pos[1]);
        let (cz, mz) = chunks_index_and_offset(pos[2]);
        (9 * cx + 3 * cy + cz, [mx, my, mz])
    }

    /// The block at a coordinate relative to the center section's origin.
    pub fn id(&self, pos: [i16; 3]) -> (r: BlockId)
        requires
            self.wf(),
            -32 <= pos[0] < 64,
            -32 <= pos[1] < 64,
            -32 <= pos[2] < 64,
        ensures
            r == self.block_at(pos[0] as int, pos[1] as int, pos[2] as int),
    {
        let (i, index) = Self::section_index(pos);
        proof {
            assert(self.chunks@[i as int].block_data.wf());
        }
        self.chunks[i].block_data.get(index)
    }

    /// The light at a coordinate relative to the center section's origin.
    pub fn light(&self, pos: [i16; 3]) -> (r: LightValue)
        requires
            self.wf(),
            -32 <= pos[0] < 64,
            -32 <= pos[1] < 64,
            -32 <= pos[2] < 64,
        ensures
            r == self.light_at(pos[0] as int, pos[1] as int, pos[2] as int),
    {
        let (i, index) = Self::section_index(pos);
        proof {
            assert(self.chunks@[i as int].light_data.wf());
        }
        self.chunks[i].light_data.get(index)
    }
}

/// The ambient occlusion of the four corners of a face, two bits each.
#[derive(Copy, Clone, Debug, Eq, PartialEq, Hash, Default)]
pub struct FaceAo(pub u8);

/// The bit offset of the corner at negative u, negative v.
pub const AO_NEG_NEG: u8 = 2;

/// The bit offset of the corner at negative u, positive v.
pub const AO_NEG_POS: u8 = 0;

/// The bit offset of the corner at positive u, negative v.
pub const AO_POS_NEG: u8 = 4;

/// The bit offset of the corner at positive u, positive v.
pub const AO_POS_POS: u8 = 6;

impl FaceAo {
    /// The two bits at offset `bits`.
    pub fn corner_ao(&self, bits: u8) -> (r: u8)
        requires
            bits < 8,
        ensures
            r == (self.0 >> bits) & 3,
    {
        let v = self.0;
        let r = (v & (3u8 << bits)) >> bits;
        assert(r == (v >> bits) & 3) by (bit_vector)
            requires
                r == (v & (3u8 << bits)) >> bits,
                bits < 8,
        ;
        r
    }
}

/// The ambient occlusion packed in a face's word.
pub open spec fn spec_pack_ao(pos_pos: u8, pos_neg: u8, neg_neg: u8, neg_pos: u8) -> u8 {
    (pos_pos * 64 + pos_neg * 16 + neg_neg * 4 + neg_pos) as u8
}

/// Each corner of a packed face is found again.
pub proof fn lemma_corner_ao(pos_pos: u8, pos_neg: u8, neg_neg: u8, neg_pos: u8)
    requires
        pos_pos < 4,
        pos_neg < 4,
        neg_neg < 4,
        neg_pos < 4,
    ensures
        (spec_pack_ao(pos_pos, pos_neg, neg_neg, neg_pos) >> AO_POS_POS) & 3 == pos_pos,
        (spec_pack_ao(pos_pos, pos_neg, neg_neg, neg_pos) >> AO_POS_NEG) & 3 == pos_neg,
        (spec_pack_ao(pos_pos, pos_neg, neg_neg, neg_pos) >> AO_NEG_NEG) & 3 == neg_neg,
        (spec_pack_ao(pos_pos, pos_neg, neg_neg, neg_pos) >> AO_NEG_POS) & 3 == neg_pos,
{
    let v = spec_pack_ao(pos_pos, pos_neg, neg_neg, neg_pos);
    assert(v == pos_pos * 64 + pos_neg * 16 + neg_neg * 4 + neg_pos);
    assert((v >> 6u8) & 3 == pos_pos && (v >> 4u8) & 3 == pos_neg && (v >> 2u8) & 3 == neg_neg && (v >> 0u8) & 3 == neg_pos) by (bit_vector)
        requires
            v == pos_pos * 64 + pos_neg * 16 + neg_neg * 4 + neg_pos,
            pos_pos < 4,
            pos_neg < 4,
            neg_neg < 4,
            neg_pos < 4,
    ;
}

/// The light at the four corners of a face.
#[derive(Copy, Clone, Debug, Eq, PartialEq, Hash, Default)]
pub struct FaceLight {
    pub neg_neg: LightValue,
    pub neg_pos: LightValue,
    pub pos_neg: LightValue,
    pub pos_pos: LightValue,
}

/// One block face of a slice, before faces are merged into quads.
#[derive(Copy, Clone, Debug, Eq, PartialEq, Hash, Default)]
pub struct VoxelFace {
    pub ao: FaceAo,
    pub light: FaceLight,
    pub id: BlockId,
    pub visited: bool,
}

impl VoxelFace {
    pub fn new(ao: FaceAo, light: FaceLight, id: BlockId) -> (r: Self)
        ensures
            r == (VoxelFace { ao, light, id, visited: false }),
    {
        Self { ao, light, id, visited: false }
    }

    /// A face that is not drawn.
    pub fn visited() -> (r: Self)
        ensures
            r.visited,
            r.id == BlockId(0),
            r.ao == FaceAo(0),
            r.light == (FaceLight { neg_neg: LightValue(0), neg_pos: LightValue(0), pos_neg: LightValue(0), pos_pos: LightValue(0) }),
    {
        Self {
            ao: FaceAo(0),
            light: FaceLight { neg_neg: LightValue(0), neg_pos: LightValue(0), pos_neg: LightValue(0), pos_pos: LightValue(0) },
            id: BlockId(0),
            visited: true,
        }
    }
}

/// A rectangle of equal block faces.
#[derive(Copy, Clone, Debug, Eq, PartialEq, Hash, Default)]
pub struct VoxelQuad {
    pub ao: FaceAo,
    pub light: FaceLight,
    pub id: BlockId,
    pub width: u16,
    pub height: u16,
}

impl VoxelQuad {
    /// The quad of one face.
    pub fn from_face(face: VoxelFace) -> (r: Self)
        ensures
            r == (VoxelQuad { ao: face.ao, light: face.light, id: face.id, width: 1, height: 1 }),
    {
        VoxelQuad { ao: face.ao, id: face.id, light: face.light, width: 1, height: 1 }
    }
}

/// How the light of a face is taken.
#[derive(Copy, Clone, Debug, Eq, PartialEq, Hash)]
pub enum LightingType {
    Smooth,
    Simple,
}

/// The result of meshing a section.
#[derive(Debug)]
pub enum CompletedMesh {
    Completed { pos: ChunkSectionPos, terrain: TerrainMesh },
    Failed { pos: ChunkSectionPos },
}

/// A face of `current` is drawn against `neighbor`: a liquid touching a
/// block that is neither a full cube nor a liquid, or a full cube touching
/// a block that is not a full cube or is a liquid.
pub open spec fn spec_should_add_face(registry: BlockRegistry, current: BlockId, neighbor: BlockId) -> bool {
    let cur_solid = registry.entry(current.0 as int).mesh_type == BlockMeshType::FullCube;
    let other_solid = registry.entry(neighbor.0 as int).mesh_type == BlockMeshType::FullCube;
    let cur_liquid = registry.entry(current.0 as int).properties.liquid;
    let other_liquid = registry.entry(neighbor.0 as int).properties.liquid;
    if cur_liquid {
        !other_solid && !other_liquid
    } else if cur_solid {
        !other_solid || other_liquid
    } else {
        false
    }
}

/// Which faces are drawn, by the kinds on both sides: a full cube that is
/// not a liquid shows its face against a liquid and against anything that is
/// not a full cube, and hides it against a full cube that is not a liquid; a
/// liquid shows its face only against what is neither a full cube nor a
/// liquid; any other block draws no faces here.
pub proof fn lemma_face_rules(registry: BlockRegistry, current: BlockId, neighbor: BlockId)
    ensures
        ({
            let cur = registry.entry(current.0 as int);
            let other = registry.entry(neighbor.0 as int);
            &&& (cur.mesh_type == BlockMeshType::FullCube && !cur.properties.liquid && other.properties.liquid)
                ==> spec_should_add_face(registry, current, neighbor)
            &&& (cur.mesh_type == BlockMeshType::FullCube && !cur.properties.liquid && other.mesh_type != BlockMeshType::FullCube)
                ==> spec_should_add_face(registry, current, neighbor)
            &&& (cur.mesh_type == BlockMeshType::FullCube && !cur.properties.liquid && other.mesh_type == BlockMeshType::FullCube
                && !other.properties.liquid) ==> !spec_should_add_face(registry, current, neighbor)
            &&& cur.properties.liquid ==> (spec_should_add_face(registry, current, neighbor)
                <==> (other.mesh_type != BlockMeshType::FullCube && !other.properties.liquid))
            &&& (!cur.properties.liquid && cur.mesh_type != BlockMeshType::FullCube) ==> !spec_should_add_face(registry, current, neighbor)
        }),
{
}

pub fn should_add_face(registry: &BlockRegistry, current: BlockId, neighbor: BlockId) -> (r: bool)
    requires
        current.0 < registry.len(),
        neighbor.0 < registry.len(),
    ensures
        r == spec_should_add_face(*registry, current, neighbor),
        ({
            let cur = registry.entry(current.0 as int);
            let other = registry.entry(neighbor.0 as int);
            &&& (cur.mesh_type == BlockMeshType::FullCube && !cur.properties.liquid && other.properties.liquid) ==> r
            &&& (cur.mesh_type == BlockMeshType::FullCube && !cur.properties.liquid && other.mesh_type != BlockMeshType::FullCube) ==> r
            &&& (cur.mesh_type == BlockMeshType::FullCube && !cur.properties.liquid && other.mesh_type == BlockMeshType::FullCube
                && !other.properties.liquid) ==> !r
            &&& cur.properties.liquid ==> (r <==> (other.mesh_type != BlockMeshType::FullCube && !other.properties.liquid))
            &&& (!cur.properties.liquid && cur.mesh_type != BlockMeshType::FullCube) ==> !r
        }),
{
    let cur_solid = matches!(registry.mesh_type(current), BlockMeshType::FullCube);
    let other_solid = matches!(registry.mesh_type(neighbor), BlockMeshType::FullCube);
    let cur_liquid = registry.liquid(current);
    let other_liquid = registry.liquid(neighbor);
    // note that cross-type blocks are not handled here; they're added in a
    // completely separate pass that doesn't depend on this function at all.
    if cur_liquid {
        // liquids only need a face when that face touches a non-full-cube type block.
        !other_solid && !other_liquid
    } else if cur_solid {
        // solids need a face when touching a non-full-cube type block *or* if they
        // touch a liquid.
        !other_solid || other_liquid
    } else {
        false
    }
}

/// A face of a section made of one kind of block against the neighboring
/// section: against a neighbor made of one kind `n`, the face rule decides;
/// against a neighbor of mixed blocks (`None`) a face is needed.
pub open spec fn face_against(registry: BlockRegistry, id: BlockId, neighbor: Option<BlockId>) -> bool {
    match neighbor {
        Some(n) => spec_should_add_face(registry, id, n),
        None => true,
    }
}

fn face_against_exec(registry: &BlockRegistry, id: BlockId, neighbor: Option<BlockId>) -> (r: bool)
    requires
        id.0 < registry.len(),
        neighbor matches Some(n) ==> n.0 < registry.len(),
    ensures
        r == face_against(*registry, id, neighbor),
{
    match neighbor {
        Some(n) => should_add_face(registry, id, n),
        None => true,
    }
}

/// Whether a section made only of block `id` needs a mesh, from its six
/// neighboring sections, each `None` when not loaded, else the one kind of
/// block it is made of, if it is made of one: `None` when a neighbor is not
/// loaded, else whether a face is needed against some neighbor.
pub fn homogenous_should_mesh(registry: &BlockRegistry, id: BlockId, neighbors: Faces<Option<Option<BlockId>>>) -> (r: Option<bool>)
    requires
        id.0 < registry.len(),
        forall|side: Side| #[trigger] neighbors.at(side) matches Some(Some(n)) ==> n.0 < registry.len(),
    ensures
        r is None <==> (neighbors.top is None || neighbors.bottom is None || neighbors.right is None
            || neighbors.left is None || neighbors.front is None || neighbors.back is None),
        r matches Some(b) ==> b == (face_against(*registry, id, neighbors.top->0)
            || face_against(*registry, id, neighbors.bottom->0) || face_against(*registry, id, neighbors.right->0)
            || face_against(*registry, id, neighbors.left->0) || face_against(*registry, id, neighbors.front->0)
            || face_against(*registry, id, neighbors.back->0)),
{
    assert(neighbors.at(Side::Top) == neighbors.top && neighbors.at(Side::Bottom) == neighbors.bottom);
    assert(neighbors.at(Side::Right) == neighbors.right && neighbors.at(Side::Left) == neighbors.left);
    assert(neighbors.at(Side::Front) == neighbors.front && neighbors.at(Side::Back) == neighbors.back);
    let top = match neighbors.top {
        Some(n) => face_against_exec(registry, id, n),
        None => return None,
    };
    let bottom = match neighbors.bottom {
        Some(n) => face_against_exec(registry, id, n),
        None => return None,
    };
    let right = match neighbors.right {
        Some(n) => face_against_exec(registry, id, n),
        None => return None,
    };
    let left = match neighbors.left {
        Some(n) => face_against_exec(registry, id, n),
        None => return None,
    };
    let front = match neighbors.front {
        Some(n) => face_against_exec(registry, id, n),
        None => return None,
    };
    let back = match neighbors.back {
        Some(n) => face_against_exec(registry, id, n),
        None => return None,
    };
    Some(top || bottom || right || left || front || back)
}

/// The ambient occlusion of a corner: none is 3, two sides that touch the
/// corner darken it fully to 0, and each other block darkens it one step.
pub open spec fn spec_ao_value(side1: bool, corner: bool, side2: bool) -> u8 {
    if side1 && side2 {
        0
    } else {
        (3 - ((if side1 { 1int } else { 0 }) + (if side2 { 1int } else { 0 }) + (if corner { 1int } else { 0 }))) as u8
    }
}

pub fn ao_value(side1: bool, corner: bool, side2: bool) -> (r: u8)
    ensures
        r == spec_ao_value(side1, corner, side2),
        r < 4,
{
    if side1 && side2 {
        0
    } else {
        3 - (side1 as u8 + side2 as u8 + corner as u8)
    }
}


/// Holds the mesh being built.
pub struct MeshBuilder {
    pub terrain_mesh: TerrainMesh,
    pub registry: BlockRegistry,
    pub rng: SmallRng,
}

impl MeshBuilder {
    /// An empty mesh over `registry`, with a freshly seeded generator for
    /// picking texture variants.
    pub fn new(registry: BlockRegistry) -> (r: Self)
        ensures
            r.registry == registry,
            r.terrain_mesh.vertices@.len() == 0,
            r.terrain_mesh.indices@.len() == 0,
    {
        MeshBuilder {
            terrain_mesh: TerrainMesh { vertices: Vec::new(), indices: Vec::new() },
            registry,
            rng: rng_from_entropy(),
        }
    }
}

/// Every index of the mesh names one of its vertices.
pub open spec fn indices_valid(mesh: TerrainMesh) -> bool {
    forall|i: int| 0 <= i < mesh.indices@.len() ==> (#[trigger] mesh.indices@[i]) < mesh.vertices@.len()
}

/// The block kind has texture variants, and each of them has textures for
/// every side.
pub open spec fn has_textures(registry: BlockRegistry, id: BlockId) -> bool {
    &&& registry.textures(id.0 as int) matches Some(vs)
    &&& vs.len() > 0
    &&& forall|v: int, side: Side| 0 <= v < vs.len() ==> (#[trigger] vs[v].at(side)).0 < registry.pools().len()
        && registry.pools()[vs[v].at(side).0 as int].len() > 0
}

/// `t` is one of the textures of some variant of the block kind's `side`.
pub open spec fn is_face_texture(registry: BlockRegistry, id: BlockId, side: Side, t: TextureId) -> bool {
    exists|v: int|
        0 <= v < registry.textures(id.0 as int)->0.len()
            && registry.pools()[(#[trigger] registry.textures(id.0 as int)->0[v]).at(side).0 as int].contains(t)
}

/// Picks at random a texture variant of the block, then a texture of that
/// variant's pool for `side`.
pub fn choose_face_texture(ctx: &mut MeshBuilder, id: BlockId, side: Side) -> (r: TextureId)
    requires
        old(ctx).registry.wf(),
        id.0 < old(ctx).registry.len(),
        has_textures(old(ctx).registry, id),
    ensures
        final(ctx).registry == old(ctx).registry,
        final(ctx).terrain_mesh == old(ctx).terrain_mesh,
        is_face_texture(old(ctx).registry, id, side, r),
{
    let variants = match ctx.registry.block_textures(id) {
        Some(v) => v,
        None => return TextureId(0),
    };
    let pool_ids = match choose_one(variants.as_slice(), &mut ctx.rng) {
        Some(p) => p,
        None => return TextureId(0),
    };
    let pool_id = *pool_ids.index(side);
    proof {
        let vs = ctx.registry.textures(id.0 as int)->0;
        let v = choose|v: int| 0 <= v < vs.len() && vs[v] == pool_ids;
        assert(vs[v].at(side).0 < ctx.registry.pools().len());
    }
    let tex_ids = ctx.registry.pool_textures(pool_id);
    match choose_one(tex_ids, &mut ctx.rng) {
        Some(t) => {
            proof {
                let vs = ctx.registry.textures(id.0 as int)->0;
                let v = choose|v: int| 0 <= v < vs.len() && vs[v] == pool_ids;
                assert(ctx.registry.pools()[vs[v].at(side).0 as int].contains(t));
            }
            t
        },
        None => TextureId(0),
    }
}

/// The index patterns of the two triangles of a quad: flipped along the
/// other diagonal or not, wound clockwise or not.
pub open spec fn quad_indices(flipped: bool, clockwise: bool) -> Seq<u32> {
    if flipped && clockwise {
        seq![0u32, 1, 2, 3, 2, 1]
    } else if flipped {
        seq![2u32, 1, 0, 1, 2, 3]
    } else if clockwise {
        seq![3u32, 2, 0, 0, 1, 3]
    } else {
        seq![0u32, 2, 3, 3, 1, 0]
    }
}

/// The sides whose faces are wound clockwise.
pub open spec fn spec_clockwise(side: Side) -> bool {
    side is Bottom || side is Front || side is Left
}

/// The corner values of a quad's face.
pub open spec fn corner(ao: FaceAo, bits: u8) -> u8 {
    (ao.0 >> bits) & 3
}

/// The quad's triangles are split along the brighter diagonal.
pub open spec fn spec_flipped(quad: VoxelQuad) -> bool {
    let intensity = |l: LightValue| if l.0 / 16 > l.0 % 16 { l.0 / 16 } else { l.0 % 16 };
    corner(quad.ao, AO_POS_POS) + corner(quad.ao, AO_NEG_NEG) < corner(quad.ao, AO_POS_NEG) + corner(quad.ao, AO_NEG_POS)
        || intensity(quad.light.pos_pos) + intensity(quad.light.neg_neg) <= intensity(quad.light.pos_neg)
        + intensity(quad.light.neg_pos)
}

/// A vertex of a quad: at `pos` plus `offset`, in sixteenths of a block.
pub open spec fn quad_vertex(pos: [u16; 3], offset: (int, int, int), side: Side, light: LightValue, tex: u16, ao: u8) -> TerrainVertex {
    TerrainVertex {
        pos_ao: spec_pos_ao(
            (16 * (pos[0] + offset.0)) as u16,
            (16 * (pos[1] + offset.1)) as u16,
            (16 * (pos[2] + offset.2)) as u16,
            ao,
        ),
        light_side_id: spec_light_side_id(side, light.0 / 16, light.0 % 16, tex),
    }
}

/// The four vertices of one side of a quad of full cubes.
pub open spec fn cube_side_vertices(quad: VoxelQuad, side: Side, pos: [u16; 3], tex: u16) -> Seq<TerrainVertex> {
    let h: int = if spec_facing_positive(side) { 1 } else { 0 };
    let qw = quad.width as int;
    let qh = quad.height as int;
    let l = quad.light;
    let (pp, pn, nn, np) = (corner(quad.ao, AO_POS_POS), corner(quad.ao, AO_POS_NEG), corner(quad.ao, AO_NEG_NEG), corner(quad.ao, AO_NEG_POS));
    match side {
        Side::Left | Side::Right => seq![
            quad_vertex(pos, (h, qw, 0), side, l.pos_neg, tex, pn),
            quad_vertex(pos, (h, qw, qh), side, l.pos_pos, tex, pp),
            quad_vertex(pos, (h, 0, 0), side, l.neg_neg, tex, nn),
            quad_vertex(pos, (h, 0, qh), side, l.neg_pos, tex, np),
        ],
        Side::Top | Side::Bottom => seq![
            quad_vertex(pos, (0, h, qh), side, l.pos_neg, tex, pn),
            quad_vertex(pos, (qw, h, qh), side, l.pos_pos, tex, pp),
            quad_vertex(pos, (0, h, 0), side, l.neg_neg, tex, nn),
            quad_vertex(pos, (qw, h, 0), side, l.neg_pos, tex, np),
        ],
        Side::Front | Side::Back => seq![
            quad_vertex(pos, (0, qh, h), side, l.neg_pos, tex, np),
            quad_vertex(pos, (qw, qh, h), side, l.pos_pos, tex, pp),
            quad_vertex(pos, (0, 0, h), side, l.neg_neg, tex, nn),
            quad_vertex(pos, (qw, 0, h), side, l.pos_neg, tex, pn),
        ],
    }
}

/// The mesh extended by `vertices` and by `indices` counted from the first
/// new vertex.
pub open spec fn mesh_extended(mesh: TerrainMesh, vertices: Seq<TerrainVertex>, indices: Seq<u32>) -> (Seq<TerrainVertex>, Seq<u32>) {
    (
        mesh.vertices@ + vertices,
        mesh.indices@ + indices.map_values(|i: u32| (mesh.vertices@.len() + i) as u32),
    )
}

/// The vertex that the mesher places for a corner of a face.
fn push_vertex(mesh: &mut TerrainMesh, pos: [u16; 3], offset: [u16; 3], side: Side, light: LightValue, tex: u16, ao: u8)
    requires
        pos[0] < 32 && pos[1] < 32 && pos[2] < 32,
        offset[0] <= 32 && offset[1] <= 32 && offset[2] <= 32,
    ensures
        final(mesh).indices == old(mesh).indices,
        final(mesh).vertices@ == old(mesh).vertices@.push(quad_vertex(pos, (offset[0] as int, offset[1] as int, offset[2] as int), side, light, tex, ao)),
{
    let p = [16 * pos[0] + 16 * offset[0], 16 * pos[1] + 16 * offset[1], 16 * pos[2] + 16 * offset[2]];
    mesh.vertices.push(TerrainVertex::pack(p, side, light.sky(), light.block(), tex, ao));
}

/// Adds one side of a quad of full cubes to the mesh: four vertices, and two
/// triangles split along the brighter diagonal. The texture is picked at
/// random among the block's textures for that side.
pub fn mesh_full_cube_side(ctx: &mut MeshBuilder, quad: VoxelQuad, side: Side, pos: [u16; 3])
    requires
        old(ctx).registry.wf(),
        quad.id.0 < old(ctx).registry.len(),
        has_textures(old(ctx).registry, quad.id),
        pos[0] < 32 && pos[1] < 32 && pos[2] < 32,
        quad.width <= 32 && quad.height <= 32,
        old(ctx).terrain_mesh.vertices@.len() + 4 <= u32::MAX,
    ensures
        final(ctx).registry == old(ctx).registry,
        exists|t: TextureId| #[trigger] is_face_texture(old(ctx).registry, quad.id, side, t)
            && (final(ctx).terrain_mesh.vertices@, final(ctx).terrain_mesh.indices@) == mesh_extended(
                old(ctx).terrain_mesh,
                cube_side_vertices(quad, side, pos, t.0 as u16),
                quad_indices(spec_flipped(quad), spec_clockwise(side)),
            ),
        final(ctx).terrain_mesh.vertices@.len() == old(ctx).terrain_mesh.vertices@.len() + 4,
        indices_valid(old(ctx).terrain_mesh) ==> indices_valid(final(ctx).terrain_mesh),
{
    let ao_pp = quad.ao.corner_ao(AO_POS_POS);
    let ao_pn = quad.ao.corner_ao(AO_POS_NEG);
    let ao_nn = quad.ao.corner_ao(AO_NEG_NEG);
    let ao_np = quad.ao.corner_ao(AO_NEG_POS);
    let ao_bits = quad.ao.0;
    assert(ao_pp < 4 && ao_pn < 4 && ao_nn < 4 && ao_np < 4) by (bit_vector)
        requires
            ao_pp == (ao_bits >> 6u8) & 3,
            ao_pn == (ao_bits >> 4u8) & 3,
            ao_nn == (ao_bits >> 2u8) & 3,
            ao_np == (ao_bits >> 0u8) & 3,
    ;
    let flipped = ao_pp + ao_nn < ao_pn + ao_np;

    let light_pp = quad.light.pos_pos;
    let light_pn = quad.light.pos_neg;
    let light_nn = quad.light.neg_neg;
    let light_np = quad.light.neg_pos;
    let flipped = flipped || light_pp.intensity() + light_nn.intensity() <= light_pn.intensity() + light_np.intensity();

    let clockwise = match side {
        Side::Top => false,
        Side::Bottom => true,
        Side::Front => true,
        Side::Back => false,
        Side::Right => false,
        Side::Left => true,
    };

    let indices: [u32; 6] = if flipped && clockwise {
        [0, 1, 2, 3, 2, 1]
    } else if flipped {
        [2, 1, 0, 1, 2, 3]
    } else if clockwise {
        [3, 2, 0, 0, 1, 3]
    } else {
        [0, 2, 3, 3, 1, 0]
    };

    let ghost m0 = ctx.terrain_mesh;
    let idx_start = ctx.terrain_mesh.vertices.len() as u32;
    let mut k: usize = 0;
    while k < 6
        invariant
            k <= 6,
            idx_start == m0.vertices@.len(),
            idx_start + 4 <= u32::MAX,
            indices@ == quad_indices(spec_flipped(quad), spec_clockwise(side)),
            ctx.terrain_mesh.vertices == m0.vertices,
            ctx.registry == old(ctx).registry,
            m0 == old(ctx).terrain_mesh,
            ctx.terrain_mesh.indices@ == m0.indices@ + indices@.take(k as int).map_values(|i: u32| (m0.vertices@.len() + i) as u32),
            forall|j: int| 0 <= j < 6 ==> indices@[j] < 4,
        decreases 6 - k,
    {
        ctx.terrain_mesh.indices.push(idx_start + indices[k]);
        proof {
            assert(indices@.take(k + 1) =~= indices@.take(k as int).push(indices@[k as int]));
            assert(ctx.terrain_mesh.indices@ =~= m0.indices@ + indices@.take(k + 1).map_values(|i: u32| (m0.vertices@.len() + i) as u32));
        }
        k += 1;
    }
    proof {
        assert(indices@.take(6) =~= indices@);
    }

    let tex = choose_face_texture(ctx, quad.id, side);
    let tex_id = tex.0 as u16;

    let h: u16 = if side.facing_positive() { 1 } else { 0 };
    let qw = quad.width;
    let qh = quad.height;
    let ghost v0 = ctx.terrain_mesh.vertices@;
    match side {
        Side::Left | Side::Right => {
            push_vertex(&mut ctx.terrain_mesh, pos, [h, qw, 0], side, light_pn, tex_id, ao_pn);
            push_vertex(&mut ctx.terrain_mesh, pos, [h, qw, qh], side, light_pp, tex_id, ao_pp);
            push_vertex(&mut ctx.terrain_mesh, pos, [h, 0, 0], side, light_nn, tex_id, ao_nn);
            push_vertex(&mut ctx.terrain_mesh, pos, [h, 0, qh], side, light_np, tex_id, ao_np);
        },
        Side::Top | Side::Bottom => {
            push_vertex(&mut ctx.terrain_mesh, pos, [0, h, qh], side, light_pn, tex_id, ao_pn);
            push_vertex(&mut ctx.terrain_mesh, pos, [qw, h, qh], side, light_pp, tex_id, ao_pp);
            push_vertex(&mut ctx.terrain_mesh, pos, [0, h, 0], side, light_nn, tex_id, ao_nn);
            push_vertex(&mut ctx.terrain_mesh, pos, [qw, h, 0], side, light_np, tex_id, ao_np);
        },
        Side::Front | Side::Back => {
            push_vertex(&mut ctx.terrain_mesh, pos, [0, qh, h], side, light_np, tex_id, ao_np);
            push_vertex(&mut ctx.terrain_mesh, pos, [qw, qh, h], side, light_pp, tex_id, ao_pp);
            push_vertex(&mut ctx.terrain_mesh, pos, [0, 0, h], side, light_nn, tex_id, ao_nn);
            push_vertex(&mut ctx.terrain_mesh, pos, [qw, 0, h], side, light_pn, tex_id, ao_pn);
        },
    }
    proof {
        assert(ctx.terrain_mesh.vertices@ =~= v0 + cube_side_vertices(quad, side, pos, tex_id));
        assert(is_face_texture(old(ctx).registry, quad.id, side, tex));
        if indices_valid(old(ctx).terrain_mesh) {
            assert forall|i: int| 0 <= i < ctx.terrain_mesh.indices@.len() implies (#[trigger] ctx.terrain_mesh.indices@[i]) < ctx.terrain_mesh.vertices@.len() by {
                if i >= m0.indices@.len() {
                    let j = i - m0.indices@.len();
                    assert(ctx.terrain_mesh.indices@[i] == (m0.vertices@.len() + indices@[j]) as u32);
                }
            }
        }
    }
}


/// The brighter sky level and the brighter block level of two values.
pub open spec fn spec_combine_max(a: LightValue, b: LightValue) -> LightValue {
    LightValue((max_u16(a.0 % 256 / 16, b.0 % 256 / 16) * 16 + max_u16(a.0 % 16, b.0 % 16)) as u16)
}

/// A block of this kind darkens the corners next to it.
pub open spec fn casts_ao(registry: BlockRegistry, id: BlockId) -> bool {
    registry.entry(id.0 as int).mesh_type == BlockMeshType::FullCube && !registry.entry(id.0 as int).properties.liquid
}

/// Every block kind that is drawn, as a shape or as a liquid, has
/// textures.
pub open spec fn textures_ready(registry: BlockRegistry) -> bool {
    forall|id: BlockId|
        id.0 < registry.len() && (registry.entry(id.0 as int).mesh_type != BlockMeshType::NoMesh
            || registry.entry(id.0 as int).properties.liquid) ==> #[trigger] has_textures(registry, id)
}

/// A vertex of a cross: at `pos` in blocks plus `offset` in sixteenths.
pub open spec fn cross_vertex(pos: [u16; 3], offset: (int, int, int), light: LightValue, tex: u16) -> TerrainVertex {
    TerrainVertex {
        pos_ao: spec_pos_ao(
            (16 * pos[0] + offset.0) as u16,
            (16 * pos[1] + offset.1) as u16,
            (16 * pos[2] + offset.2) as u16,
            3,
        ),
        light_side_id: spec_light_side_id(Side::Right, light.0 / 16, light.0 % 16, tex),
    }
}

/// The eight vertices of a cross: two upright planes across the block's
/// diagonals, kept a sixteenth inside the block.
pub open spec fn cross_vertices(pos: [u16; 3], light: LightValue, tex: u16) -> Seq<TerrainVertex> {
    let (l, h) = (1int, 15int);
    seq![
        cross_vertex(pos, (l, 0, l), light, tex),
        cross_vertex(pos, (l, h, l), light, tex),
        cross_vertex(pos, (h, h, h), light, tex),
        cross_vertex(pos, (h, 0, h), light, tex),
        cross_vertex(pos, (l, 0, h), light, tex),
        cross_vertex(pos, (l, h, h), light, tex),
        cross_vertex(pos, (h, h, l), light, tex),
        cross_vertex(pos, (h, 0, l), light, tex),
    ]
}

/// The triangles of a cross, both faces of both planes.
pub open spec fn cross_indices() -> Seq<u32> {
    seq![0u32, 1, 2, 0, 2, 3, 0, 2, 1, 0, 3, 2, 4, 5, 6, 4, 6, 7, 4, 6, 5, 4, 7, 6]
}

fn push_cross_vertex(mesh: &mut TerrainMesh, pos: [u16; 3], offset: [u16; 3], light: LightValue, tex: u16)
    requires
        pos[0] < 32 && pos[1] < 32 && pos[2] < 32,
        offset[0] < 16 && offset[1] < 16 && offset[2] < 16,
    ensures
        final(mesh).indices == old(mesh).indices,
        final(mesh).vertices@ == old(mesh).vertices@.push(cross_vertex(pos, (offset[0] as int, offset[1] as int, offset[2] as int), light, tex)),
{
    let p = [16 * pos[0] + offset[0], 16 * pos[1] + offset[1], 16 * pos[2] + offset[2]];
    mesh.vertices.push(TerrainVertex::pack(p, Side::Right, light.sky(), light.block(), tex, 3));
}

/// Adds a cross-shaped block, such as a plant, to the mesh; its texture is
/// picked at random among the block's textures for its right side.
pub fn mesh_cross(ctx: &mut MeshBuilder, id: BlockId, pos: [u16; 3], light: LightValue)
    requires
        old(ctx).registry.wf(),
        id.0 < old(ctx).registry.len(),
        has_textures(old(ctx).registry, id),
        pos[0] < 32 && pos[1] < 32 && pos[2] < 32,
        old(ctx).terrain_mesh.vertices@.len() + 8 <= u32::MAX,
    ensures
        final(ctx).registry == old(ctx).registry,
        exists|t: TextureId| #[trigger] is_face_texture(old(ctx).registry, id, Side::Right, t)
            && (final(ctx).terrain_mesh.vertices@, final(ctx).terrain_mesh.indices@) == mesh_extended(
                old(ctx).terrain_mesh,
                cross_vertices(pos, light, t.0 as u16),
                cross_indices(),
            ),
        final(ctx).terrain_mesh.vertices@.len() == old(ctx).terrain_mesh.vertices@.len() + 8,
        indices_valid(old(ctx).terrain_mesh) ==> indices_valid(final(ctx).terrain_mesh),
{
    let tex = choose_face_texture(ctx, id, Side::Right);
    let tex_id = tex.0 as u16;
    let cross: [u32; 24] = [0, 1, 2, 0, 2, 3, 0, 2, 1, 0, 3, 2, 4, 5, 6, 4, 6, 7, 4, 6, 5, 4, 7, 6];
    let ghost m0 = ctx.terrain_mesh;
    let idx_start = ctx.terrain_mesh.vertices.len() as u32;
    let mut k: usize = 0;
    while k < 24
        invariant
            k <= 24,
            idx_start == m0.vertices@.len(),
            idx_start + 8 <= u32::MAX,
            cross@ == cross_indices(),
            ctx.terrain_mesh.vertices == m0.vertices,
            ctx.registry == old(ctx).registry,
            ctx.terrain_mesh.indices@ == m0.indices@ + cross@.take(k as int).map_values(|i: u32| (m0.vertices@.len() + i) as u32),
            forall|j: int| 0 <= j < 24 ==> cross@[j] < 8,
        decreases 24 - k,
    {
        ctx.terrain_mesh.indices.push(idx_start + cross[k]);
        proof {
            assert(cross@.take(k + 1) =~= cross@.take(k as int).push(cross@[k as int]));
            assert(ctx.terrain_mesh.indices@ =~= m0.indices@ + cross@.take(k + 1).map_values(|i: u32| (m0.vertices@.len() + i) as u32));
        }
        k += 1;
    }
    proof {
        assert(cross@.take(24) =~= cross@);
    }
    // not quite 0 and 16, to keep the tops of crosses from wrapping around
    // in the terrain shader.
    let l: u16 = 1;
    let h: u16 = 15;
    let ghost v0 = ctx.terrain_mesh.vertices@;
    push_cross_vertex(&mut ctx.terrain_mesh, pos, [l, 0, l], light, tex_id);
    push_cross_vertex(&mut ctx.terrain_mesh, pos, [l, h, l], light, tex_id);
    push_cross_vertex(&mut ctx.terrain_mesh, pos, [h, h, h], light, tex_id);
    push_cross_vertex(&mut ctx.terrain_mesh, pos, [h, 0, h], light, tex_id);
    push_cross_vertex(&mut ctx.terrain_mesh, pos, [l, 0, h], light, tex_id);
    push_cross_vertex(&mut ctx.terrain_mesh, pos, [l, h, h], light, tex_id);
    push_cross_vertex(&mut ctx.terrain_mesh, pos, [h, h, l], light, tex_id);
    push_cross_vertex(&mut ctx.terrain_mesh, pos, [h, 0, l], light, tex_id);
    proof {
        assert(ctx.terrain_mesh.vertices@ =~= v0 + cross_vertices(pos, light, tex_id));
        if indices_valid(old(ctx).terrain_mesh) {
            assert forall|i: int| 0 <= i < ctx.terrain_mesh.indices@.len() implies (#[trigger] ctx.terrain_mesh.indices@[i]) < ctx.terrain_mesh.vertices@.len() by {
                if i >= m0.indices@.len() {
                    let j = i - m0.indices@.len();
                    assert(ctx.terrain_mesh.indices@[i] == (m0.vertices@.len() + cross@[j]) as u32);
                }
            }
        }
    }
}

/// A face of this kind of block is drawn, as a full cube or as a liquid.
pub open spec fn drawable(registry: BlockRegistry, id: BlockId) -> bool {
    registry.entry(id.0 as int).mesh_type == BlockMeshType::FullCube || registry.entry(id.0 as int).properties.liquid
}

/// The two faces are the same in every field.
pub fn same_face(a: VoxelFace, b: VoxelFace) -> (r: bool)
    ensures
        r == (a == b),
{
    a.ao.0 == b.ao.0 && a.light.neg_neg.0 == b.light.neg_neg.0 && a.light.neg_pos.0 == b.light.neg_pos.0
        && a.light.pos_neg.0 == b.light.pos_neg.0 && a.light.pos_pos.0 == b.light.pos_pos.0 && a.id.0 == b.id.0
        && a.visited == b.visited
}

/// The block at `(u, v)` of layer `layer` of the slices along `side`'s
/// axis.
pub open spec fn spec_slice_coordinate(side: Side, layer: u16, u: u16, v: u16) -> [u16; 3] {
    match side {
        Side::Right | Side::Left => [layer, u, v],
        Side::Top | Side::Bottom => [u, layer, v],
        Side::Front | Side::Back => [u, v, layer],
    }
}

pub fn slice_coordinate(side: Side, layer: u16, u: u16, v: u16) -> (r: [u16; 3])
    ensures
        r == spec_slice_coordinate(side, layer, u, v),
{
    match side {
        Side::Right | Side::Left => [layer, u, v],
        Side::Top | Side::Bottom => [u, layer, v],
        Side::Front | Side::Back => [u, v, layer],
    }
}

/// The side at place `k` of the order in which the faces of a block are
/// meshed.
pub open spec fn side_order(k: int) -> Side {
    if k == 0 {
        Side::Right
    } else if k == 1 {
        Side::Left
    } else if k == 2 {
        Side::Top
    } else if k == 3 {
        Side::Bottom
    } else if k == 4 {
        Side::Front
    } else {
        Side::Back
    }
}

/// A mesh with a quad's vertices appended and its triangles, numbered from
/// the first appended vertex.
pub open spec fn pair_extended(m: (Seq<TerrainVertex>, Seq<u32>), vertices: Seq<TerrainVertex>, indices: Seq<u32>) -> (Seq<TerrainVertex>, Seq<u32>) {
    (m.0 + vertices, m.1 + indices.map_values(|i: u32| (m.0.len() + i) as u32))
}

/// The quad placed at `(q.0, q.1)` of a slice covers the face `(a, b)`.
pub open spec fn in_quad(q: (u16, u16, VoxelQuad), a: int, b: int) -> bool {
    q.0 <= a < q.0 + q.2.width && q.1 <= b < q.1 + q.2.height
}

/// Some quad of `qs` covers the face `(a, b)`.
pub open spec fn covered(qs: Seq<(u16, u16, VoxelQuad)>, a: int, b: int) -> bool {
    exists|i: int| 0 <= i < qs.len() && #[trigger] in_quad(qs[i], a, b)
}

/// The face that each block face of a quad is.
pub open spec fn quad_face(q: VoxelQuad) -> VoxelFace {
    VoxelFace { ao: q.ao, light: q.light, id: q.id, visited: false }
}

/// The quads `qs` merge the faces of slice `s` that are to be drawn: each
/// quad lies in the slice, is of a kind that is drawn, and covers only
/// faces equal to its own face; no two quads share a face; and every face
/// not yet meshed whose kind is drawn lies in a quad.
pub open spec fn greedy_cover(registry: BlockRegistry, s: Seq<VoxelFace>, qs: Seq<(u16, u16, VoxelQuad)>) -> bool {
    &&& quads_placed(registry, s, qs)
    &&& forall|a: int, b: int| 0 <= a < 32 && 0 <= b < 32 && !s[32 * a + b].visited && drawable(registry, #[trigger] s[32 * a + b].id)
        ==> covered(qs, a, b)
}

/// Each quad of `qs` lies in the slice, is of a kind that is drawn, and
/// covers only faces of `s` equal to its own face; no two quads share a
/// face.
pub open spec fn quads_placed(registry: BlockRegistry, s: Seq<VoxelFace>, qs: Seq<(u16, u16, VoxelQuad)>) -> bool {
    &&& forall|i: int| 0 <= i < qs.len() ==> {
        let q = #[trigger] qs[i];
        &&& 1 <= q.2.width && q.0 + q.2.width <= 32
        &&& 1 <= q.2.height && q.1 + q.2.height <= 32
        &&& drawable(registry, q.2.id)
    }
    &&& forall|i: int, a: int, b: int| 0 <= i < qs.len() && #[trigger] in_quad(qs[i], a, b) ==> s[32 * a + b] == quad_face(qs[i].2)
    &&& forall|i: int, j: int, a: int, b: int| 0 <= i < qs.len() && 0 <= j < qs.len() && i != j && #[trigger] in_quad(qs[i], a, b)
        ==> !#[trigger] in_quad(qs[j], a, b)
}

/// The mesh `m` with the quads of `qs` of layer `layer` along `side`
/// added, quad `i` textured by `ts[i]`.
pub open spec fn quads_mesh(m: (Seq<TerrainVertex>, Seq<u32>), side: Side, layer: u16, qs: Seq<(u16, u16, VoxelQuad)>, ts: Seq<u16>) -> (Seq<TerrainVertex>, Seq<u32>)
    decreases qs.len(),
{
    if qs.len() == 0 {
        m
    } else {
        let q = qs.last();
        pair_extended(
            quads_mesh(m, side, layer, qs.drop_last(), ts.drop_last()),
            cube_side_vertices(q.2, side, spec_slice_coordinate(side, layer, q.0, q.1), ts[qs.len() - 1]),
            quad_indices(spec_flipped(q.2), spec_clockwise(side)),
        )
    }
}

/// The block of a section that comes `b`-th in meshing order: `x`
/// outermost, then `z`, then `y` innermost.
pub open spec fn meshing_pos(b: int) -> [u16; 3] {
    [(b / 1024) as u16, (b % 32) as u16, ((b / 32) % 32) as u16]
}

/// `v` is the number of one of the textures of the block kind's `side`.
pub open spec fn face_texture_value(registry: BlockRegistry, id: BlockId, side: Side, v: u16) -> bool {
    exists|t: TextureId| #[trigger] is_face_texture(registry, id, side, t) && v == t.0 as u16
}

/// The state needed to mesh one chunk section.
pub struct MeshCreationContext {
    chunks: ChunkNeighbors,
    mesh_constructor: MeshBuilder,
    pos: ChunkSectionPos,
    slice: Vec<VoxelFace>,
    lighting_type: LightingType,
}

impl MeshCreationContext {
    pub closed spec fn registry_view(&self) -> BlockRegistry {
        self.mesh_constructor.registry
    }

    pub closed spec fn neighbors_view(&self) -> ChunkNeighbors {
        self.chunks
    }

    pub closed spec fn pos_view(&self) -> ChunkSectionPos {
        self.pos
    }

    pub closed spec fn lighting_view(&self) -> LightingType {
        self.lighting_type
    }

    pub closed spec fn wf(&self) -> bool {
        &&& self.chunks.wf()
        &&& self.mesh_constructor.registry.wf()
        &&& self.chunks.ids_below(self.mesh_constructor.registry.len())
        &&& self.slice@.len() == 1024
        &&& forall|k: int| 0 <= k < 1024 ==> (#[trigger] self.slice@[k]).id.0 < self.mesh_constructor.registry.len()
    }

    /// Whether the block at a coordinate relative to the section darkens
    /// the corners next to it.
    pub open spec fn ao_at(&self, p: (int, int, int)) -> bool {
        casts_ao(self.registry_view(), self.neighbors_view().block_at(p.0, p.1, p.2))
    }

    /// The block `(u, v)` steps along a side and one step out of it.
    pub open spec fn ao_around(&self, pos: [u16; 3], side: Side, u: int, v: int) -> bool {
        let o = spec_uvl_to_xyz(side, u, v, 1);
        self.ao_at((pos[0] + o.0, pos[1] + o.1, pos[2] + o.2))
    }

    /// The ambient occlusion of the face of `pos` on `side`.
    pub open spec fn spec_face_ao(&self, pos: [u16; 3], side: Side) -> u8 {
        let c = |u: int, v: int| self.ao_around(pos, side, u, v);
        spec_pack_ao(
            spec_ao_value(c(0, 1), c(1, 1), c(1, 0)),
            spec_ao_value(c(1, 0), c(1, -1), c(0, -1)),
            spec_ao_value(c(0, -1), c(-1, -1), c(-1, 0)),
            spec_ao_value(c(-1, 0), c(-1, 1), c(0, 1)),
        )
    }

    /// The light of the block `(u, v)` steps along a side and one step out
    /// of it.
    pub open spec fn light_around(&self, pos: [u16; 3], side: Side, u: int, v: int) -> LightValue {
        let o = spec_uvl_to_xyz(side, u, v, 1);
        self.neighbors_view().light_at(pos[0] + o.0, pos[1] + o.1, pos[2] + o.2)
    }

    /// The light of the face of `pos` on `side`: smooth lighting takes at
    /// each corner the brightest of the four blocks around it in front of
    /// the face, simple lighting the light of the block in front of it.
    pub open spec fn spec_face_light(&self, pos: [u16; 3], side: Side) -> FaceLight {
        let l = |u: int, v: int| self.light_around(pos, side, u, v);
        match self.lighting_view() {
            LightingType::Smooth => FaceLight {
                neg_neg: spec_combine_max(spec_combine_max(l(-1, -1), l(-1, 0)), spec_combine_max(l(0, -1), l(0, 0))),
                neg_pos: spec_combine_max(spec_combine_max(l(-1, 1), l(-1, 0)), spec_combine_max(l(0, 1), l(0, 0))),
                pos_neg: spec_combine_max(spec_combine_max(l(1, -1), l(1, 0)), spec_combine_max(l(0, -1), l(0, 0))),
                pos_pos: spec_combine_max(spec_combine_max(l(1, 1), l(1, 0)), spec_combine_max(l(0, 1), l(0, 0))),
            },
            LightingType::Simple => {
                let n = spec_normal(side);
                let light = self.neighbors_view().light_at(pos[0] + n[0], pos[1] + n[1], pos[2] + n[2]);
                FaceLight { neg_neg: light, neg_pos: light, pos_neg: light, pos_pos: light }
            },
        }
    }

    /// The kind of the block next to `pos` on `side`.
    pub open spec fn neighbor_kind(&self, pos: [u16; 3], side: Side) -> BlockId {
        let n = spec_normal(side);
        self.neighbors_view().block_at(pos[0] + n[0], pos[1] + n[1], pos[2] + n[2])
    }

    /// The quad of one face of the full cube `id` at `pos`.
    pub open spec fn cube_face_quad(&self, pos: [u16; 3], side: Side, id: BlockId) -> VoxelQuad {
        VoxelQuad { ao: FaceAo(self.spec_face_ao(pos, side)), light: self.spec_face_light(pos, side), id, width: 1, height: 1 }
    }

    /// The face of the full cube `id` at `pos` on the `k`-th side is drawn.
    pub open spec fn cube_face_drawn(&self, pos: [u16; 3], id: BlockId, k: int) -> bool {
        spec_should_add_face(self.registry_view(), id, self.neighbor_kind(pos, side_order(k)))
    }

    /// The mesh `m` after the faces of the full cube `id` at `pos` on the
    /// first `n` sides are added, the face on side `k` with texture `ts[k]`.
    pub open spec fn cube_faces_onto(&self, m: (Seq<TerrainVertex>, Seq<u32>), pos: [u16; 3], id: BlockId, ts: Seq<u16>, n: int) -> (Seq<TerrainVertex>, Seq<u32>)
        decreases n,
    {
        if n <= 0 {
            m
        } else {
            let prev = self.cube_faces_onto(m, pos, id, ts, n - 1);
            let side = side_order(n - 1);
            let quad = self.cube_face_quad(pos, side, id);
            if self.cube_face_drawn(pos, id, n - 1) {
                pair_extended(prev, cube_side_vertices(quad, side, pos, ts[n - 1]), quad_indices(spec_flipped(quad), spec_clockwise(side)))
            } else {
                prev
            }
        }
    }

    proof fn lemma_cube_faces_prefix(&self, m: (Seq<TerrainVertex>, Seq<u32>), pos: [u16; 3], id: BlockId, ts: Seq<u16>, ts2: Seq<u16>, n: int)
        requires
            0 <= n <= ts.len(),
            n <= ts2.len(),
            forall|j: int| 0 <= j < n ==> ts[j] == ts2[j],
        ensures
            self.cube_faces_onto(m, pos, id, ts, n) == self.cube_faces_onto(m, pos, id, ts2, n),
        decreases n,
    {
        if n > 0 {
            self.lemma_cube_faces_prefix(m, pos, id, ts, ts2, n - 1);
        }
    }

    /// The faces of a cube depend on the context only through its blocks,
    /// lights, registry and lighting.
    proof fn lemma_cube_faces_same_views(&self, other: &Self, m: (Seq<TerrainVertex>, Seq<u32>), pos: [u16; 3], id: BlockId, ts: Seq<u16>, n: int)
        requires
            self.registry_view() == other.registry_view(),
            self.neighbors_view() == other.neighbors_view(),
            self.lighting_view() == other.lighting_view(),
        ensures
            self.cube_faces_onto(m, pos, id, ts, n) == other.cube_faces_onto(m, pos, id, ts, n),
        decreases n,
    {
        if n > 0 {
            self.lemma_cube_faces_same_views(other, m, pos, id, ts, n - 1);
            let side = side_order(n - 1);
            assert(self.spec_face_ao(pos, side) == other.spec_face_ao(pos, side));
            assert(self.spec_face_light(pos, side) == other.spec_face_light(pos, side));
        }
    }

    /// The face at `(a, b)` of layer `layer` of the slices along `side`:
    /// the block's face on `side` when it is to be drawn, else a face
    /// marked as already meshed.
    #[verifier::opaque]
    pub open spec fn slice_face(&self, side: Side, layer: u16, a: int, b: int) -> VoxelFace {
        let pos = spec_slice_coordinate(side, layer, a as u16, b as u16);
        let id = self.neighbors_view().block_at(pos[0] as int, pos[1] as int, pos[2] as int);
        if spec_should_add_face(self.registry_view(), id, self.neighbor_kind(pos, side)) {
            VoxelFace { ao: FaceAo(self.spec_face_ao(pos, side)), light: self.spec_face_light(pos, side), id, visited: false }
        } else {
            VoxelFace {
                ao: FaceAo(0),
                light: FaceLight { neg_neg: LightValue(0), neg_pos: LightValue(0), pos_neg: LightValue(0), pos_pos: LightValue(0) },
                id: BlockId(0),
                visited: true,
            }
        }
    }

    /// The faces of layer `layer` of the slices along `side`, row `a` at
    /// `32 * a`.
    pub open spec fn slice_faces(&self, side: Side, layer: u16) -> Seq<VoxelFace> {
        Seq::new(1024, |k: int| self.slice_face(side, layer, k / 32, k % 32))
    }

    /// The mesh `m` with the quads of the first `n` layers along `side`
    /// added, layer `l` merged into the quads `qss[l]` textured by `tss[l]`.
    pub open spec fn layers_mesh(
        m: (Seq<TerrainVertex>, Seq<u32>),
        side: Side,
        qss: Seq<Seq<(u16, u16, VoxelQuad)>>,
        tss: Seq<Seq<u16>>,
        n: int,
    ) -> (Seq<TerrainVertex>, Seq<u32>)
        decreases n,
    {
        if n <= 0 {
            m
        } else {
            quads_mesh(Self::layers_mesh(m, side, qss, tss, n - 1), side, (n - 1) as u16, qss[n - 1], tss[n - 1])
        }
    }

    /// The quads `qss` and textures `tss` are a greedy meshing of the first
    /// `n` layers along `side`.
    pub open spec fn layers_merged(&self, side: Side, qss: Seq<Seq<(u16, u16, VoxelQuad)>>, tss: Seq<Seq<u16>>, n: int) -> bool {
        forall|l: int| 0 <= l < n ==> {
            &&& #[trigger] tss[l].len() == qss[l].len()
            &&& greedy_cover(self.registry_view(), self.slice_faces(side, l as u16), qss[l])
            &&& forall|i: int| 0 <= i < qss[l].len() ==> face_texture_value(self.registry_view(), (#[trigger] qss[l][i]).2.id, side, tss[l][i])
        }
    }

    /// The face that the slicing loop computes for `(u, v)` is the slice's
    /// face there.
    proof fn lemma_slice_face(&self, ctx0: &Self, side: Side, layer: u16, u: u16, v: u16, cur_id: BlockId, neighbor_id: BlockId, face: VoxelFace)
        requires
            self.registry_view() == ctx0.registry_view(),
            self.neighbors_view() == ctx0.neighbors_view(),
            self.lighting_view() == ctx0.lighting_view(),
            ({
                let pos = spec_slice_coordinate(side, layer, u, v);
                &&& cur_id == self.neighbors_view().block_at(pos[0] as int, pos[1] as int, pos[2] as int)
                &&& neighbor_id == self.neighbor_kind(pos, side)
                &&& face == if spec_should_add_face(self.registry_view(), cur_id, neighbor_id) {
                    VoxelFace { ao: FaceAo(self.spec_face_ao(pos, side)), light: self.spec_face_light(pos, side), id: cur_id, visited: false }
                } else {
                    VoxelFace {
                        ao: FaceAo(0),
                        light: FaceLight { neg_neg: LightValue(0), neg_pos: LightValue(0), pos_neg: LightValue(0), pos_pos: LightValue(0) },
                        id: BlockId(0),
                        visited: true,
                    }
                }
            }),
        ensures
            face == ctx0.slice_face(side, layer, u as int, v as int),
    {
        reveal(MeshCreationContext::slice_face);
        let pos = spec_slice_coordinate(side, layer, u, v);
        assert(self.spec_face_ao(pos, side) == ctx0.spec_face_ao(pos, side));
        assert(self.spec_face_light(pos, side) == ctx0.spec_face_light(pos, side));
    }

    /// The slices depend on the context only through its blocks, lights,
    /// registry and lighting.
    proof fn lemma_slice_face_views(&self, other: &Self, side: Side, layer: u16, a: int, b: int)
        requires
            self.registry_view() == other.registry_view(),
            self.neighbors_view() == other.neighbors_view(),
            self.lighting_view() == other.lighting_view(),
        ensures
            self.slice_face(side, layer, a, b) == other.slice_face(side, layer, a, b),
    {
        reveal(MeshCreationContext::slice_face);
        let pos = spec_slice_coordinate(side, layer, a as u16, b as u16);
        assert(self.spec_face_ao(pos, side) == other.spec_face_ao(pos, side));
        assert(self.spec_face_light(pos, side) == other.spec_face_light(pos, side));
    }

    proof fn lemma_layers_mesh_prefix(
        m: (Seq<TerrainVertex>, Seq<u32>),
        side: Side,
        qss: Seq<Seq<(u16, u16, VoxelQuad)>>,
        tss: Seq<Seq<u16>>,
        qss2: Seq<Seq<(u16, u16, VoxelQuad)>>,
        tss2: Seq<Seq<u16>>,
        n: int,
    )
        requires
            forall|l: int| 0 <= l < n ==> #[trigger] qss[l] == qss2[l] && tss[l] == tss2[l],
        ensures
            Self::layers_mesh(m, side, qss, tss, n) == Self::layers_mesh(m, side, qss2, tss2, n),
        decreases n,
    {
        if n > 0 {
            Self::lemma_layers_mesh_prefix(m, side, qss, tss, qss2, tss2, n - 1);
            assert(qss[n - 1] == qss2[n - 1]);
        }
    }

    /// The mesh `m` with the `b`-th block of the section added when it is a
    /// cross, textured by `tex(b, 0)`.
    pub open spec fn cross_mesh_onto(&self, m: (Seq<TerrainVertex>, Seq<u32>), b: int, tex: spec_fn(int, int) -> u16) -> (Seq<TerrainVertex>, Seq<u32>) {
        let pos = meshing_pos(b);
        if self.registry_view().entry(self.block_id_at(b).0 as int).mesh_type == BlockMeshType::Cross {
            pair_extended(
                m,
                cross_vertices(pos, self.neighbors_view().light_at(pos[0] as int, pos[1] as int, pos[2] as int), tex(b, 0)),
                cross_indices(),
            )
        } else {
            m
        }
    }

    /// The crosses among the first `n` blocks of the section in meshing
    /// order.
    pub open spec fn crosses_mesh(&self, tex: spec_fn(int, int) -> u16, n: int) -> (Seq<TerrainVertex>, Seq<u32>)
        decreases n,
    {
        if n <= 0 {
            (Seq::empty(), Seq::empty())
        } else {
            self.cross_mesh_onto(self.crosses_mesh(tex, n - 1), n - 1, tex)
        }
    }

    /// Every cross among the first `n` blocks takes one of its textures.
    pub open spec fn cross_textures_ok(&self, tex: spec_fn(int, int) -> u16, n: int) -> bool {
        forall|b: int| 0 <= b < n && self.registry_view().entry((#[trigger] self.block_id_at(b)).0 as int).mesh_type == BlockMeshType::Cross
            ==> face_texture_value(self.registry_view(), self.block_id_at(b), Side::Right, tex(b, 0))
    }

    /// The mesh `m` with the merged quads of the first `n` sides, in the
    /// order of [`side_order`], added.
    pub open spec fn sides_mesh(
        m: (Seq<TerrainVertex>, Seq<u32>),
        qsss: Seq<Seq<Seq<(u16, u16, VoxelQuad)>>>,
        tsss: Seq<Seq<Seq<u16>>>,
        n: int,
    ) -> (Seq<TerrainVertex>, Seq<u32>)
        decreases n,
    {
        if n <= 0 {
            m
        } else {
            Self::layers_mesh(Self::sides_mesh(m, qsss, tsss, n - 1), side_order(n - 1), qsss[n - 1], tsss[n - 1], 32)
        }
    }

    /// The quads of the first `n` sides are a greedy meshing of each of
    /// their layers.
    pub open spec fn sides_merged(&self, qsss: Seq<Seq<Seq<(u16, u16, VoxelQuad)>>>, tsss: Seq<Seq<Seq<u16>>>, n: int) -> bool {
        forall|k: int| 0 <= k < n ==> {
            &&& #[trigger] qsss[k].len() == 32 && tsss[k].len() == 32
            &&& self.layers_merged(side_order(k), qsss[k], tsss[k], 32)
        }
    }

    proof fn lemma_crosses_prefix(&self, tex: spec_fn(int, int) -> u16, tex2: spec_fn(int, int) -> u16, n: int)
        requires
            forall|b: int, k: int| 0 <= b < n ==> #[trigger] tex(b, k) == tex2(b, k),
        ensures
            self.crosses_mesh(tex, n) == self.crosses_mesh(tex2, n),
            self.cross_textures_ok(tex, n) ==> self.cross_textures_ok(tex2, n),
        decreases n,
    {
        if n > 0 {
            self.lemma_crosses_prefix(tex, tex2, n - 1);
            assert(tex(n - 1, 0) == tex2(n - 1, 0));
        }
        if self.cross_textures_ok(tex, n) {
            assert forall|b: int| 0 <= b < n && self.registry_view().entry((#[trigger] self.block_id_at(b)).0 as int).mesh_type == BlockMeshType::Cross
                implies face_texture_value(self.registry_view(), self.block_id_at(b), Side::Right, tex2(b, 0)) by {
                assert(tex(b, 0) == tex2(b, 0));
            }
        }
    }

    proof fn lemma_sides_prefix(
        m: (Seq<TerrainVertex>, Seq<u32>),
        qsss: Seq<Seq<Seq<(u16, u16, VoxelQuad)>>>,
        tsss: Seq<Seq<Seq<u16>>>,
        qsss2: Seq<Seq<Seq<(u16, u16, VoxelQuad)>>>,
        tsss2: Seq<Seq<Seq<u16>>>,
        n: int,
    )
        requires
            forall|k: int| 0 <= k < n ==> #[trigger] qsss[k] == qsss2[k] && tsss[k] == tsss2[k],
        ensures
            Self::sides_mesh(m, qsss, tsss, n) == Self::sides_mesh(m, qsss2, tsss2, n),
        decreases n,
    {
        if n > 0 {
            Self::lemma_sides_prefix(m, qsss, tsss, qsss2, tsss2, n - 1);
            assert(qsss[n - 1] == qsss2[n - 1]);
        }
    }

    /// After meshing one more side, its merged quads extend those of the
    /// sides before it.
    proof fn lemma_side_done(
        &self,
        pre: &Self,
        c: (Seq<TerrainVertex>, Seq<u32>),
        qsss: Seq<Seq<Seq<(u16, u16, VoxelQuad)>>>,
        tsss: Seq<Seq<Seq<u16>>>,
        j: int,
        after: (Seq<TerrainVertex>, Seq<u32>),
    ) -> (r: (Seq<Seq<Seq<(u16, u16, VoxelQuad)>>>, Seq<Seq<Seq<u16>>>))
        requires
            0 <= j < 6,
            pre.registry_view() == self.registry_view(),
            pre.neighbors_view() == self.neighbors_view(),
            pre.lighting_view() == self.lighting_view(),
            qsss.len() == j && tsss.len() == j,
            self.sides_merged(qsss, tsss, j),
            (pre.mesh_view().vertices@, pre.mesh_view().indices@) == Self::sides_mesh(c, qsss, tsss, j),
            exists|qss: Seq<Seq<(u16, u16, VoxelQuad)>>, tss: Seq<Seq<u16>>| {
                &&& qss.len() == 32 && tss.len() == 32
                &&& pre.layers_merged(side_order(j), qss, tss, 32)
                &&& after == Self::layers_mesh((pre.mesh_view().vertices@, pre.mesh_view().indices@), side_order(j), qss, tss, 32)
            },
        ensures
            r.0.len() == j + 1 && r.1.len() == j + 1,
            self.sides_merged(r.0, r.1, j + 1),
            after == Self::sides_mesh(c, r.0, r.1, j + 1),
    {
        let (qss, tss) = choose|qss: Seq<Seq<(u16, u16, VoxelQuad)>>, tss: Seq<Seq<u16>>| {
            &&& qss.len() == 32 && tss.len() == 32
            &&& pre.layers_merged(side_order(j), qss, tss, 32)
            &&& after == Self::layers_mesh((pre.mesh_view().vertices@, pre.mesh_view().indices@), side_order(j), qss, tss, 32)
        };
        let side = side_order(j);
        assert forall|l: int| 0 <= l < 32 implies #[trigger] pre.slice_faces(side, l as u16) == self.slice_faces(side, l as u16) by {
            assert forall|k: int| 0 <= k < 1024 implies #[trigger] pre.slice_faces(side, l as u16)[k] == self.slice_faces(side, l as u16)[k] by {
                pre.lemma_slice_face_views(self, side, l as u16, k / 32, k % 32);
            }
            assert(pre.slice_faces(side, l as u16) =~= self.slice_faces(side, l as u16));
        }
        assert(self.layers_merged(side, qss, tss, 32)) by {
            assert forall|l: int| 0 <= l < 32 implies {
                &&& #[trigger] tss[l].len() == qss[l].len()
                &&& greedy_cover(self.registry_view(), self.slice_faces(side, l as u16), qss[l])
                &&& forall|i: int| 0 <= i < qss[l].len() ==> face_texture_value(self.registry_view(), (#[trigger] qss[l][i]).2.id, side, tss[l][i])
            } by {
                assert(pre.slice_faces(side, l as u16) == self.slice_faces(side, l as u16));
            }
        }
        let q2 = qsss.push(qss);
        let t2 = tsss.push(tss);
        assert forall|k: int| 0 <= k < j implies #[trigger] q2[k] == qsss[k] && t2[k] == tsss[k] by {}
        Self::lemma_sides_prefix(c, q2, t2, qsss, tsss, j);
        assert(q2[j] == qss && t2[j] == tss);
        assert(self.sides_merged(q2, t2, j + 1)) by {
            assert forall|k: int| 0 <= k < j + 1 implies {
                &&& #[trigger] q2[k].len() == 32 && t2[k].len() == 32
                &&& self.layers_merged(side_order(k), q2[k], t2[k], 32)
            } by {
                if k < j {
                    assert(q2[k] == qsss[k] && t2[k] == tsss[k]);
                    assert(qsss[k].len() == 32);
                }
            }
        }
        (q2, t2)
    }

    /// The kind of the `b`-th block of the section in meshing order.
    pub open spec fn block_id_at(&self, b: int) -> BlockId {
        let p = meshing_pos(b);
        self.neighbors_view().block_at(p[0] as int, p[1] as int, p[2] as int)
    }

    /// The mesh `m` with the `b`-th block of the section added: nothing for
    /// a block without a mesh, a cross textured by `tex(b, 0)`, or the drawn
    /// faces of a full cube, the one on the `k`-th side textured by
    /// `tex(b, k)`.
    pub open spec fn block_mesh_onto(&self, m: (Seq<TerrainVertex>, Seq<u32>), b: int, tex: spec_fn(int, int) -> u16) -> (Seq<TerrainVertex>, Seq<u32>) {
        let pos = meshing_pos(b);
        let id = self.block_id_at(b);
        match self.registry_view().entry(id.0 as int).mesh_type {
            BlockMeshType::NoMesh => m,
            BlockMeshType::Cross => pair_extended(
                m,
                cross_vertices(pos, self.neighbors_view().light_at(pos[0] as int, pos[1] as int, pos[2] as int), tex(b, 0)),
                cross_indices(),
            ),
            BlockMeshType::FullCube => self.cube_faces_onto(m, pos, id, Seq::new(6, |k: int| tex(b, k)), 6),
        }
    }

    /// The mesh of the first `n` blocks of the section in meshing order.
    pub open spec fn section_mesh(&self, tex: spec_fn(int, int) -> u16, n: int) -> (Seq<TerrainVertex>, Seq<u32>)
        decreases n,
    {
        if n <= 0 {
            (Seq::empty(), Seq::empty())
        } else {
            self.block_mesh_onto(self.section_mesh(tex, n - 1), n - 1, tex)
        }
    }

    /// Every texture that the `b`-th block uses is one of its textures for
    /// that side.
    pub open spec fn block_textures_ok(&self, b: int, tex: spec_fn(int, int) -> u16) -> bool {
        let pos = meshing_pos(b);
        let id = self.block_id_at(b);
        match self.registry_view().entry(id.0 as int).mesh_type {
            BlockMeshType::NoMesh => true,
            BlockMeshType::Cross => face_texture_value(self.registry_view(), id, Side::Right, tex(b, 0)),
            BlockMeshType::FullCube => forall|k: int| 0 <= k < 6 && #[trigger] self.cube_face_drawn(pos, id, k)
                ==> face_texture_value(self.registry_view(), id, side_order(k), tex(b, k)),
        }
    }

    /// The first `n` blocks use only their own textures.
    pub open spec fn textures_ok_upto(&self, tex: spec_fn(int, int) -> u16, n: int) -> bool {
        forall|b: int| 0 <= b < n ==> #[trigger] self.block_textures_ok(b, tex)
    }

    proof fn lemma_section_mesh_prefix(&self, tex: spec_fn(int, int) -> u16, tex2: spec_fn(int, int) -> u16, n: int)
        requires
            forall|b: int, k: int| 0 <= b < n ==> #[trigger] tex(b, k) == tex2(b, k),
        ensures
            self.section_mesh(tex, n) == self.section_mesh(tex2, n),
            forall|b: int| 0 <= b < n ==> #[trigger] self.block_textures_ok(b, tex) == self.block_textures_ok(b, tex2),
        decreases n,
    {
        if n > 0 {
            self.lemma_section_mesh_prefix(tex, tex2, n - 1);
            assert(Seq::new(6, |k: int| tex(n - 1, k)) =~= Seq::new(6, |k: int| tex2(n - 1, k)));
        }
        assert forall|b: int| 0 <= b < n implies #[trigger] self.block_textures_ok(b, tex) == self.block_textures_ok(b, tex2) by {
            assert(tex(b, 0) == tex2(b, 0));
            assert forall|k: int| 0 <= k < 6 implies #[trigger] tex(b, k) == tex2(b, k) by {}
        }
    }

    /// The context for meshing the section at `pos` from its neighborhood,
    /// with simple lighting.
    pub fn new(pos: ChunkSectionPos, neighbors: ChunkNeighbors, registry: BlockRegistry) -> (r: Self)
        requires
            neighbors.wf(),
            registry.wf(),
            neighbors.ids_below(registry.len()),
        ensures
            r.wf(),
            r.registry_view() == registry,
            r.neighbors_view() == neighbors,
            r.pos_view() == pos,
            r.lighting_view() == LightingType::Simple,
    {
        proof {
            neighbors.lemma_block_below(registry.len(), 0, 0, 0);
        }
        let mesh_constructor = MeshBuilder::new(registry);
        let mut slice: Vec<VoxelFace> = Vec::with_capacity(1024);
        let mut i: usize = 0;
        while i < 1024
            invariant
                i <= 1024,
                slice@.len() == i,
                registry.len() > 0,
                forall|k: int| 0 <= k < i ==> (#[trigger] slice@[k]).id.0 == 0,
            decreases 1024 - i,
        {
            slice.push(VoxelFace {
                ao: FaceAo(0),
                light: FaceLight { neg_neg: LightValue(0), neg_pos: LightValue(0), pos_neg: LightValue(0), pos_pos: LightValue(0) },
                id: BlockId(0),
                visited: false,
            });
            i += 1;
        }
        MeshCreationContext { chunks: neighbors, pos, slice, mesh_constructor, lighting_type: LightingType::Simple }
    }

    /// The block at `pos` plus the step `(u, v, 1)` along `side` darkens
    /// the face's corners.
    fn contributes_ao(&self, pos: [u16; 3], side: Side, u: i32, v: i32) -> (r: bool)
        requires
            self.wf(),
            pos[0] < 32 && pos[1] < 32 && pos[2] < 32,
            -1 <= u <= 1,
            -1 <= v <= 1,
        ensures
            r == self.ao_around(pos, side, u as int, v as int),
    {
        let o = side.uvl_to_xyz(u, v, 1);
        let p = [(pos[0] as i32 + o[0]) as i16, (pos[1] as i32 + o[1]) as i16, (pos[2] as i32 + o[2]) as i16];
        let id = self.chunks.id(p);
        proof {
            self.chunks.lemma_block_below(self.mesh_constructor.registry.len(), p[0] as int, p[1] as int, p[2] as int);
        }
        matches!(self.mesh_constructor.registry.mesh_type(id), BlockMeshType::FullCube) && !self.mesh_constructor.registry.liquid(id)
    }

    /// The ambient occlusion of the face of `pos` on `side`, from the blocks
    /// in front of the face around it.
    pub fn face_ao(&self, pos: [u16; 3], side: Side) -> (r: FaceAo)
        requires
            self.wf(),
            pos[0] < 32 && pos[1] < 32 && pos[2] < 32,
        ensures
            r.0 == self.spec_face_ao(pos, side),
    {
        let neg_neg = self.contributes_ao(pos, side, -1, -1);
        let neg_cen = self.contributes_ao(pos, side, -1, 0);
        let neg_pos = self.contributes_ao(pos, side, -1, 1);
        let pos_neg = self.contributes_ao(pos, side, 1, -1);
        let pos_cen = self.contributes_ao(pos, side, 1, 0);
        let pos_pos = self.contributes_ao(pos, side, 1, 1);
        let cen_neg = self.contributes_ao(pos, side, 0, -1);
        let cen_pos = self.contributes_ao(pos, side, 0, 1);

        let face_pos_pos = ao_value(cen_pos, pos_pos, pos_cen); // c+ ++ +c
        let face_pos_neg = ao_value(pos_cen, pos_neg, cen_neg); // +c +- c-
        let face_neg_neg = ao_value(cen_neg, neg_neg, neg_cen); // c- -- -c
        let face_neg_pos = ao_value(neg_cen, neg_pos, cen_pos); // -c -+ c+

        let r = face_pos_pos << AO_POS_POS | face_pos_neg << AO_POS_NEG | face_neg_neg << AO_NEG_NEG | face_neg_pos << AO_NEG_POS;
        assert(r == face_pos_pos * 64 + face_pos_neg * 16 + face_neg_neg * 4 + face_neg_pos) by (bit_vector)
            requires
                r == face_pos_pos << 6u8 | face_pos_neg << 4u8 | face_neg_neg << 2u8 | face_neg_pos << 0u8,
                face_pos_pos < 4,
                face_pos_neg < 4,
                face_neg_neg < 4,
                face_neg_pos < 4,
        ;
        FaceAo(r)
    }

    fn light_around_exec(&self, pos: [u16; 3], side: Side, u: i32, v: i32) -> (r: LightValue)
        requires
            self.wf(),
            pos[0] < 32 && pos[1] < 32 && pos[2] < 32,
            -1 <= u <= 1,
            -1 <= v <= 1,
        ensures
            r == self.light_around(pos, side, u as int, v as int),
    {
        let o = side.uvl_to_xyz(u, v, 1);
        self.chunks.light([(pos[0] as i32 + o[0]) as i16, (pos[1] as i32 + o[1]) as i16, (pos[2] as i32 + o[2]) as i16])
    }

    /// The light of the face of `pos` on `side`.
    pub fn face_light(&self, pos: [u16; 3], side: Side) -> (r: FaceLight)
        requires
            self.wf(),
            pos[0] < 32 && pos[1] < 32 && pos[2] < 32,
        ensures
            r == self.spec_face_light(pos, side),
    {
        match self.lighting_type {
            LightingType::Smooth => {
                let nn = self.light_around_exec(pos, side, -1, -1);
                let nc = self.light_around_exec(pos, side, -1, 0);
                let np = self.light_around_exec(pos, side, -1, 1);
                let cn = self.light_around_exec(pos, side, 0, -1);
                let cc = self.light_around_exec(pos, side, 0, 0);
                let cp = self.light_around_exec(pos, side, 0, 1);
                let pn = self.light_around_exec(pos, side, 1, -1);
                let pc = self.light_around_exec(pos, side, 1, 0);
                let pp = self.light_around_exec(pos, side, 1, 1);

                let neg_neg = LightValue::combine_max(LightValue::combine_max(nn, nc), LightValue::combine_max(cn, cc));
                let neg_pos = LightValue::combine_max(LightValue::combine_max(np, nc), LightValue::combine_max(cp, cc));
                let pos_neg = LightValue::combine_max(LightValue::combine_max(pn, pc), LightValue::combine_max(cn, cc));
                let pos_pos = LightValue::combine_max(LightValue::combine_max(pp, pc), LightValue::combine_max(cp, cc));

                FaceLight { neg_neg, neg_pos, pos_neg, pos_pos }
            },
            LightingType::Simple => {
                let n = side.normal();
                let light = self.chunks.light([(pos[0] as i32 + n[0]) as i16, (pos[1] as i32 + n[1]) as i16, (pos[2] as i32 + n[2]) as i16]);
                FaceLight { neg_neg: light, neg_pos: light, pos_neg: light, pos_pos: light }
            },
        }
    }

    pub closed spec fn mesh_view(&self) -> TerrainMesh {
        self.mesh_constructor.terrain_mesh
    }

    /// Meshes the blocks of `pos` whose shape is a full cube: each of its
    /// faces that [`should_add_face`] keeps becomes a quad of one face.
    #[verifier::rlimit(100)]
    #[verifier::spinoff_prover]
    fn mesh_cube_faces(&mut self, pos: [u16; 3], cur_id: BlockId)
        requires
            old(self).wf(),
            textures_ready(old(self).registry_view()),
            pos[0] < 32 && pos[1] < 32 && pos[2] < 32,
            cur_id == old(self).neighbors_view().block_at(pos[0] as int, pos[1] as int, pos[2] as int),
            old(self).registry_view().entry(cur_id.0 as int).mesh_type == BlockMeshType::FullCube,
            old(self).mesh_view().vertices@.len() + 24 <= u32::MAX,
        ensures
            final(self).wf(),
            final(self).registry_view() == old(self).registry_view(),
            final(self).neighbors_view() == old(self).neighbors_view(),
            final(self).pos_view() == old(self).pos_view(),
            final(self).lighting_view() == old(self).lighting_view(),
            final(self).mesh_view().vertices@.len() <= old(self).mesh_view().vertices@.len() + 24,
            indices_valid(old(self).mesh_view()) ==> indices_valid(final(self).mesh_view()),
            exists|ts: Seq<u16>| {
                &&& ts.len() == 6
                &&& forall|k: int| 0 <= k < 6 && old(self).cube_face_drawn(pos, cur_id, k)
                    ==> exists|t: TextureId| #[trigger] is_face_texture(old(self).registry_view(), cur_id, side_order(k), t) && ts[k] == t.0 as u16
                &&& (final(self).mesh_view().vertices@, final(self).mesh_view().indices@)
                    == old(self).cube_faces_onto((old(self).mesh_view().vertices@, old(self).mesh_view().indices@), pos, cur_id, ts, 6)
            },
    {
        proof {
            self.chunks.lemma_block_below(self.mesh_constructor.registry.len(), pos[0] as int, pos[1] as int, pos[2] as int);
        }
        let ghost ctx0 = *self;
        let ghost m0 = (self.mesh_view().vertices@, self.mesh_view().indices@);
        let ghost mut ts: Seq<u16> = Seq::empty();
        let sides = Side::enumerate();
        let mut k: usize = 0;
        while k < 6
            invariant
                self.wf(),
                textures_ready(self.registry_view()),
                self.registry_view() == old(self).registry_view(),
                self.neighbors_view() == old(self).neighbors_view(),
                self.pos_view() == old(self).pos_view(),
                self.lighting_view() == old(self).lighting_view(),
                pos[0] < 32 && pos[1] < 32 && pos[2] < 32,
                cur_id.0 < self.registry_view().len(),
                has_textures(self.registry_view(), cur_id),
                k <= 6,
                self.mesh_view().vertices@.len() <= old(self).mesh_view().vertices@.len() + 4 * k,
                old(self).mesh_view().vertices@.len() + 24 <= u32::MAX,
                indices_valid(old(self).mesh_view()) ==> indices_valid(self.mesh_view()),
                ctx0 == *old(self),
                sides == [Side::Right, Side::Left, Side::Top, Side::Bottom, Side::Front, Side::Back],
                ts.len() == k,
                forall|j: int| 0 <= j < k && ctx0.cube_face_drawn(pos, cur_id, j)
                    ==> exists|t: TextureId| #[trigger] is_face_texture(ctx0.registry_view(), cur_id, side_order(j), t) && ts[j] == t.0 as u16,
                m0 == (ctx0.mesh_view().vertices@, ctx0.mesh_view().indices@),
                (self.mesh_view().vertices@, self.mesh_view().indices@) == ctx0.cube_faces_onto(m0, pos, cur_id, ts, k as int),
            decreases 6 - k,
        {
            let side = sides[k];
            proof {
                assert(side == side_order(k as int));
            }
            let n = side.normal();
            let neighbor_id = self.chunks.id([(pos[0] as i32 + n[0]) as i16, (pos[1] as i32 + n[1]) as i16, (pos[2] as i32 + n[2]) as i16]);
            proof {
                self.chunks.lemma_block_below(
                    self.mesh_constructor.registry.len(),
                    pos[0] + n[0],
                    pos[1] + n[1],
                    pos[2] + n[2],
                );
            }
            let ghost before = (self.mesh_view().vertices@, self.mesh_view().indices@);
            proof {
                assert(neighbor_id == ctx0.neighbor_kind(pos, side));
            }
            if should_add_face(&self.mesh_constructor.registry, cur_id, neighbor_id) {
                let ao = self.face_ao(pos, side);
                let light = self.face_light(pos, side);
                let quad = VoxelQuad { ao, id: cur_id, light, width: 1, height: 1 };
                proof {
                    assert(self.spec_face_ao(pos, side) == ctx0.spec_face_ao(pos, side));
                    assert(self.spec_face_light(pos, side) == ctx0.spec_face_light(pos, side));
                    assert(quad == ctx0.cube_face_quad(pos, side, cur_id));
                }
                let ghost mb = self.mesh_constructor.terrain_mesh;
                mesh_full_cube_side(&mut self.mesh_constructor, quad, side, pos);
                proof {
                    let t = choose|t: TextureId| #[trigger] is_face_texture(ctx0.registry_view(), cur_id, side, t)
                        && (self.mesh_constructor.terrain_mesh.vertices@, self.mesh_constructor.terrain_mesh.indices@) == mesh_extended(
                            mb,
                            cube_side_vertices(quad, side, pos, t.0 as u16),
                            quad_indices(spec_flipped(quad), spec_clockwise(side)),
                        );
                    let ts2 = ts.push(t.0 as u16);
                    ctx0.lemma_cube_faces_prefix(m0, pos, cur_id, ts, ts2, k as int);
                    ts = ts2;
                    assert(ctx0.cube_face_drawn(pos, cur_id, k as int));
                    assert((self.mesh_view().vertices@, self.mesh_view().indices@) == ctx0.cube_faces_onto(m0, pos, cur_id, ts, k + 1));
                    assert forall|j: int| 0 <= j < k + 1 && ctx0.cube_face_drawn(pos, cur_id, j)
                        implies exists|t2: TextureId| #[trigger] is_face_texture(ctx0.registry_view(), cur_id, side_order(j), t2) && ts[j] == t2.0 as u16 by {
                        if j == k {
                            assert(is_face_texture(ctx0.registry_view(), cur_id, side_order(j), t) && ts[j] == t.0 as u16);
                        } else {
                            let t2 = choose|t2: TextureId| #[trigger] is_face_texture(ctx0.registry_view(), cur_id, side_order(j), t2) && ts2[j] == t2.0 as u16;
                        }
                    }
                }
            } else {
                proof {
                    let ts2 = ts.push(0u16);
                    ctx0.lemma_cube_faces_prefix(m0, pos, cur_id, ts, ts2, k as int);
                    assert forall|j: int| 0 <= j < k + 1 && ctx0.cube_face_drawn(pos, cur_id, j)
                        implies exists|t2: TextureId| #[trigger] is_face_texture(ctx0.registry_view(), cur_id, side_order(j), t2) && ts2[j] == t2.0 as u16 by {
                        let t2 = choose|t2: TextureId| #[trigger] is_face_texture(ctx0.registry_view(), cur_id, side_order(j), t2) && ts[j] == t2.0 as u16;
                        assert(ts2[j] == ts[j]);
                    }
                    ts = ts2;
                    assert(!ctx0.cube_face_drawn(pos, cur_id, k as int));
                }
            }
            k += 1;
        }
    }

    /// Meshes the section one block at a time: crosses as crosses, and each
    /// face of a full cube that should be drawn as its own quad. The mesh is
    /// the section's blocks in meshing order, each with textures picked at
    /// random among its own.
    pub fn mesh_simple(self) -> (r: CompletedMesh)
        requires
            self.wf(),
            textures_ready(self.registry_view()),
            indices_valid(self.mesh_view()),
            self.mesh_view().vertices@.len() == 0,
        ensures
            r matches CompletedMesh::Completed { pos, terrain } && pos == self.pos_view() && indices_valid(terrain)
                && exists|tex: spec_fn(int, int) -> u16| self.textures_ok_upto(tex, 32768)
                    && (terrain.vertices@, terrain.indices@) == self.section_mesh(tex, 32768),
    {
        let mut this = self;
        let ghost base = self;
        let ghost mut tex: spec_fn(int, int) -> u16 = |b: int, k: int| 0u16;
        proof {
            if self.mesh_view().indices@.len() > 0 {
                assert(self.mesh_view().indices@[0] < self.mesh_view().vertices@.len());
            }
            assert(self.mesh_view().vertices@ =~= Seq::<TerrainVertex>::empty());
            assert(self.mesh_view().indices@ =~= Seq::<u32>::empty());
        }
        let mut x: u16 = 0;
        while x < 32
            invariant
                this.wf(),
                textures_ready(this.registry_view()),
                this.registry_view() == base.registry_view(),
                this.neighbors_view() == base.neighbors_view(),
                this.pos_view() == base.pos_view(),
                this.lighting_view() == base.lighting_view(),
                x <= 32,
                this.mesh_view().vertices@.len() <= 24576 * (x as int),
                indices_valid(this.mesh_view()),
                base.textures_ok_upto(tex, 1024 * x),
                (this.mesh_view().vertices@, this.mesh_view().indices@) == base.section_mesh(tex, 1024 * x),
            decreases 32 - x,
        {
            let mut z: u16 = 0;
            while z < 32
                invariant
                    this.wf(),
                    textures_ready(this.registry_view()),
                    this.registry_view() == base.registry_view(),
                    this.neighbors_view() == base.neighbors_view(),
                    this.pos_view() == base.pos_view(),
                    this.lighting_view() == base.lighting_view(),
                    x < 32,
                    z <= 32,
                    this.mesh_view().vertices@.len() <= 24576 * (x as int) + 768 * (z as int),
                    indices_valid(this.mesh_view()),
                    base.textures_ok_upto(tex, 1024 * x + 32 * z),
                    (this.mesh_view().vertices@, this.mesh_view().indices@) == base.section_mesh(tex, 1024 * x + 32 * z),
                decreases 32 - z,
            {
                let mut y: u16 = 0;
                while y < 32
                    invariant
                        this.wf(),
                        textures_ready(this.registry_view()),
                        this.registry_view() == base.registry_view(),
                        this.neighbors_view() == base.neighbors_view(),
                        this.pos_view() == base.pos_view(),
                        this.lighting_view() == base.lighting_view(),
                        x < 32,
                        z < 32,
                        y <= 32,
                        this.mesh_view().vertices@.len() <= 24576 * (x as int) + 768 * (z as int) + 24 * (y as int),
                        indices_valid(this.mesh_view()),
                        base.textures_ok_upto(tex, 1024 * x + 32 * z + y),
                        (this.mesh_view().vertices@, this.mesh_view().indices@) == base.section_mesh(tex, 1024 * x + 32 * z + y),
                    decreases 32 - y,
                {
                    let pos = [x, y, z];
                    let ghost b: int = 1024 * x + 32 * z + y;
                    proof {
                        let (xi, yi, zi) = (x as int, y as int, z as int);
                        assert(b / 1024 == xi && b % 32 == yi && (b / 32) % 32 == zi) by (nonlinear_arith)
                            requires b == 1024 * xi + 32 * zi + yi, 0 <= xi < 32, 0 <= yi < 32, 0 <= zi < 32;
                        assert(meshing_pos(b) == pos);
                    }
                    let cur_id = this.chunks.id([x as i16, y as i16, z as i16]);
                    let cur_light = this.chunks.light([x as i16, y as i16, z as i16]);
                    proof {
                        this.chunks.lemma_block_below(this.mesh_constructor.registry.len(), x as int, y as int, z as int);
                        assert(base.block_id_at(b) == cur_id);
                    }
                    let ghost m = (this.mesh_view().vertices@, this.mesh_view().indices@);
                    let ghost tb = this;
                    let ghost tex0 = tex;
                    match this.mesh_constructor.registry.mesh_type(cur_id) {
                        BlockMeshType::NoMesh => {
                            proof {
                                assert(base.block_textures_ok(b, tex));
                            }
                        },
                        BlockMeshType::Cross => {
                            proof {
                                assert(has_textures(this.registry_view(), cur_id));
                            }
                            mesh_cross(&mut this.mesh_constructor, cur_id, pos, cur_light);
                            proof {
                                let t = choose|t: TextureId| #[trigger] is_face_texture(base.registry_view(), cur_id, Side::Right, t)
                                    && (this.mesh_view().vertices@, this.mesh_view().indices@) == mesh_extended(
                                        tb.mesh_view(),
                                        cross_vertices(pos, cur_light, t.0 as u16),
                                        cross_indices(),
                                    );
                                let tex2 = |b2: int, k: int| if b2 == b { t.0 as u16 } else { tex(b2, k) };
                                base.lemma_section_mesh_prefix(tex, tex2, b);
                                assert(base.block_textures_ok(b, tex2));
                                tex = tex2;
                            }
                        },
                        BlockMeshType::FullCube => {
                            this.mesh_cube_faces(pos, cur_id);
                            proof {
                                let ts = choose|ts: Seq<u16>| {
                                    &&& ts.len() == 6
                                    &&& forall|k: int| 0 <= k < 6 && tb.cube_face_drawn(pos, cur_id, k)
                                        ==> exists|t: TextureId| #[trigger] is_face_texture(tb.registry_view(), cur_id, side_order(k), t) && ts[k] == t.0 as u16
                                    &&& (this.mesh_view().vertices@, this.mesh_view().indices@) == tb.cube_faces_onto(m, pos, cur_id, ts, 6)
                                };
                                tb.lemma_cube_faces_same_views(&base, m, pos, cur_id, ts, 6);
                                let tex2 = |b2: int, k: int| if b2 == b { ts[k] } else { tex(b2, k) };
                                base.lemma_section_mesh_prefix(tex, tex2, b);
                                assert(Seq::new(6, |k: int| tex2(b, k)) =~= ts);
                                assert forall|k: int| 0 <= k < 6 && #[trigger] base.cube_face_drawn(pos, cur_id, k)
                                    implies face_texture_value(base.registry_view(), cur_id, side_order(k), tex2(b, k)) by {
                                    assert(tb.cube_face_drawn(pos, cur_id, k));
                                }
                                assert(base.block_textures_ok(b, tex2));
                                tex = tex2;
                            }
                        },
                    }
                    proof {
                        assert(base.section_mesh(tex, b + 1) == base.block_mesh_onto(base.section_mesh(tex, b), b, tex));
                        assert forall|b2: int| 0 <= b2 < b + 1 implies #[trigger] base.block_textures_ok(b2, tex) by {
                            if b2 < b {
                                assert(base.block_textures_ok(b2, tex0));
                            }
                        }
                    }
                    y += 1;
                }
                z += 1;
            }
            x += 1;
        }
        CompletedMesh::Completed { pos: this.pos, terrain: this.mesh_constructor.terrain_mesh }
    }

    pub closed spec fn slice_view(&self) -> Seq<VoxelFace> {
        self.slice@
    }

    /// Marks the faces of the rectangle from `(u, v)` on, `width` by
    /// `height`, as meshed.
    fn mark_visited(&mut self, u: u16, v: u16, width: u16, height: u16)
        requires
            old(self).wf(),
            u + width <= 32,
            v + height <= 32,
        ensures
            final(self).wf(),
            final(self).registry_view() == old(self).registry_view(),
            final(self).neighbors_view() == old(self).neighbors_view(),
            final(self).pos_view() == old(self).pos_view(),
            final(self).lighting_view() == old(self).lighting_view(),
            final(self).mesh_view() == old(self).mesh_view(),
            final(self).slice@.len() == 1024,
            forall|k: int| 0 <= k < 1024 ==> (#[trigger] final(self).slice@[k]).id == old(self).slice@[k].id,
            forall|k: int| 0 <= k < 1024 && old(self).slice@[k].visited ==> (#[trigger] final(self).slice@[k]).visited,
            forall|w: int, h: int| 0 <= w < width && 0 <= h < height ==> #[trigger] final(self).slice@[32 * ((u as int) + w) + ((v as int) + h)].visited,
            forall|k: int| 0 <= k < 1024 ==> (#[trigger] final(self).slice@[k]).ao == old(self).slice@[k].ao && final(self).slice@[k].light == old(self).slice@[k].light,
            forall|a: int, b: int| 0 <= a < 32 && 0 <= b < 32 && !(u <= a < u + width && v <= b < v + height)
                ==> #[trigger] final(self).slice@[32 * a + b] == old(self).slice@[32 * a + b],
    {
        let mut w: u16 = 0;
        while w < width
            invariant
                self.wf(),
                old(self).slice@.len() == 1024,
                self.registry_view() == old(self).registry_view(),
                self.neighbors_view() == old(self).neighbors_view(),
                self.pos_view() == old(self).pos_view(),
                self.lighting_view() == old(self).lighting_view(),
                self.mesh_view() == old(self).mesh_view(),
                u + width <= 32,
                v + height <= 32,
                w <= width,
                forall|k: int| 0 <= k < 1024 ==> (#[trigger] self.slice@[k]).id == old(self).slice@[k].id,
                forall|k: int| 0 <= k < 1024 && old(self).slice@[k].visited ==> (#[trigger] self.slice@[k]).visited,
                forall|w2: int, h: int| 0 <= w2 < w && 0 <= h < height ==> #[trigger] self.slice@[32 * ((u as int) + w2) + ((v as int) + h)].visited,
                forall|k: int| 0 <= k < 1024 ==> (#[trigger] self.slice@[k]).ao == old(self).slice@[k].ao && self.slice@[k].light == old(self).slice@[k].light,
                forall|a: int, b: int| 0 <= a < 32 && 0 <= b < 32 && !(u <= a < u + w && v <= b < v + height)
                    ==> #[trigger] self.slice@[32 * a + b] == old(self).slice@[32 * a + b],
            decreases width - w,
        {
            let mut h: u16 = 0;
            while h < height
                invariant
                    self.wf(),
                    old(self).slice@.len() == 1024,
                    self.registry_view() == old(self).registry_view(),
                    self.neighbors_view() == old(self).neighbors_view(),
                    self.pos_view() == old(self).pos_view(),
                    self.lighting_view() == old(self).lighting_view(),
                    self.mesh_view() == old(self).mesh_view(),
                    u + width <= 32,
                    v + height <= 32,
                    w < width,
                    h <= height,
                    forall|k: int| 0 <= k < 1024 ==> (#[trigger] self.slice@[k]).id == old(self).slice@[k].id,
                    forall|k: int| 0 <= k < 1024 && old(self).slice@[k].visited ==> (#[trigger] self.slice@[k]).visited,
                    forall|w2: int, h2: int| 0 <= w2 < w && 0 <= h2 < height ==> #[trigger] self.slice@[32 * ((u as int) + w2) + ((v as int) + h2)].visited,
                    forall|h2: int| 0 <= h2 < h ==> #[trigger] self.slice@[32 * ((u as int) + (w as int)) + ((v as int) + h2)].visited,
                    forall|k: int| 0 <= k < 1024 ==> (#[trigger] self.slice@[k]).ao == old(self).slice@[k].ao && self.slice@[k].light == old(self).slice@[k].light,
                    forall|a: int, b: int| 0 <= a < 32 && 0 <= b < 32 && !(u <= a < u + w && v <= b < v + height) && !(a == u + w && v <= b < v + h)
                        ==> #[trigger] self.slice@[32 * a + b] == old(self).slice@[32 * a + b],
                decreases height - h,
            {
                let i = idx(u + w, v + h);
                let mut face = self.slice[i];
                face.visited = true;
                let ghost before = self.slice@;
                self.slice.set(i, face);
                proof {
                    assert(self.slice@ == before.update(i as int, face));
                    assert forall|k: int| 0 <= k < 1024 implies (#[trigger] self.slice@[k]).id == old(self).slice@[k].id by {
                        if k != i {
                            assert(self.slice@[k] == before[k]);
                        }
                    }
                    assert forall|k: int| 0 <= k < 1024 implies (#[trigger] self.slice@[k]).ao == old(self).slice@[k].ao
                        && self.slice@[k].light == old(self).slice@[k].light by {
                        if k != i {
                            assert(self.slice@[k] == before[k]);
                        }
                    }
                    assert forall|a: int, b: int| 0 <= a < 32 && 0 <= b < 32 && !(u <= a < u + w && v <= b < v + height) && !(a == u + w && v <= b < v + h + 1)
                        implies #[trigger] self.slice@[32 * a + b] == old(self).slice@[32 * a + b] by {
                        assert(32 * a + b != i);
                        assert(self.slice@[32 * a + b] == before[32 * a + b]);
                    }
                }
                h += 1;
            }
            w += 1;
        }
    }

    /// Merges the faces of the current slice into quads and adds them to the
    /// mesh: from each face not yet meshed, a quad grows along u as far as
    /// the faces are the same, then along v as far as whole rows are; its
    /// faces are then marked as meshed. The quads cover each face to be
    /// drawn exactly once and only equal faces.
    #[verifier::rlimit(100)]
    #[verifier::spinoff_prover]
    fn submit_quads(&mut self, side: Side, layer: u16)
        requires
            old(self).wf(),
            textures_ready(old(self).registry_view()),
            layer < 32,
            forall|k: int| 0 <= k < 1024 ==> (#[trigger] old(self).slice@[k]).id.0 < old(self).registry_view().len(),
            old(self).mesh_view().vertices@.len() + 4096 <= u32::MAX,
        ensures
            final(self).wf(),
            final(self).registry_view() == old(self).registry_view(),
            final(self).neighbors_view() == old(self).neighbors_view(),
            final(self).pos_view() == old(self).pos_view(),
            final(self).lighting_view() == old(self).lighting_view(),
            forall|k: int| 0 <= k < 1024 ==> (#[trigger] final(self).slice@[k]).id == old(self).slice@[k].id,
            forall|k: int| 0 <= k < 1024 && (old(self).slice@[k].visited || drawable(old(self).registry_view(), old(self).slice@[k].id))
                ==> (#[trigger] final(self).slice@[k]).visited,
            final(self).mesh_view().vertices@.len() <= old(self).mesh_view().vertices@.len() + 4096,
            indices_valid(old(self).mesh_view()) ==> indices_valid(final(self).mesh_view()),
            exists|qs: Seq<(u16, u16, VoxelQuad)>, ts: Seq<u16>| {
                &&& ts.len() == qs.len()
                &&& greedy_cover(old(self).registry_view(), old(self).slice@, qs)
                &&& forall|i: int| 0 <= i < qs.len() ==> face_texture_value(old(self).registry_view(), (#[trigger] qs[i]).2.id, side, ts[i])
                &&& (final(self).mesh_view().vertices@, final(self).mesh_view().indices@)
                    == quads_mesh((old(self).mesh_view().vertices@, old(self).mesh_view().indices@), side, layer, qs, ts)
            },
    {
        let ghost s0 = self.slice@;
        let ghost reg = self.registry_view();
        let ghost len0 = self.mesh_view().vertices@.len();
        let ghost m0 = (self.mesh_view().vertices@, self.mesh_view().indices@);
        let ghost mut qs: Seq<(u16, u16, VoxelQuad)> = Seq::empty();
        let ghost mut ts: Seq<u16> = Seq::empty();
        let mut u: u16 = 0;
        while u < 32
            invariant
                self.wf(),
                textures_ready(self.registry_view()),
                self.registry_view() == reg,
                reg == old(self).registry_view(),
                self.neighbors_view() == old(self).neighbors_view(),
                self.pos_view() == old(self).pos_view(),
                self.lighting_view() == old(self).lighting_view(),
                layer < 32,
                u <= 32,
                s0 == old(self).slice@,
                s0.len() == 1024,
                forall|k: int| 0 <= k < 1024 ==> (#[trigger] self.slice@[k]).id == s0[k].id,
                forall|k: int| 0 <= k < 1024 ==> (#[trigger] s0[k]).id.0 < reg.len(),
                forall|k: int| 0 <= k < 1024 && s0[k].visited ==> (#[trigger] self.slice@[k]).visited,
                forall|k: int| 0 <= k < 32 * (u as int) && drawable(reg, s0[k].id) ==> (#[trigger] self.slice@[k]).visited,
                len0 == old(self).mesh_view().vertices@.len(),
                len0 + 4096 <= u32::MAX,
                self.mesh_view().vertices@.len() <= len0 + 4 * (32 * (u as int) + 0),
                indices_valid(old(self).mesh_view()) ==> indices_valid(self.mesh_view()),
                m0 == (old(self).mesh_view().vertices@, old(self).mesh_view().indices@),
                ts.len() == qs.len(),
                quads_placed(reg, s0, qs),
                forall|i: int| 0 <= i < qs.len() ==> face_texture_value(reg, (#[trigger] qs[i]).2.id, side, ts[i]),
                (self.mesh_view().vertices@, self.mesh_view().indices@) == quads_mesh(m0, side, layer, qs, ts),
                forall|a: int, b: int| 0 <= a < 32 && 0 <= b < 32
                    ==> (#[trigger] self.slice@[32 * a + b]).visited == (s0[32 * a + b].visited || covered(qs, a, b)),
                forall|a: int, b: int| 0 <= a < 32 && 0 <= b < 32 && !self.slice@[32 * a + b].visited
                    ==> #[trigger] self.slice@[32 * a + b] == s0[32 * a + b],
            decreases 32 - u,
        {
            let mut v: u16 = 0;
            while v < 32
                invariant
                    self.wf(),
                    textures_ready(self.registry_view()),
                    self.registry_view() == reg,
                    reg == old(self).registry_view(),
                    self.neighbors_view() == old(self).neighbors_view(),
                    self.pos_view() == old(self).pos_view(),
                    self.lighting_view() == old(self).lighting_view(),
                    layer < 32,
                    u < 32,
                    v <= 32,
                    s0 == old(self).slice@,
                    s0.len() == 1024,
                    forall|k: int| 0 <= k < 1024 ==> (#[trigger] self.slice@[k]).id == s0[k].id,
                    forall|k: int| 0 <= k < 1024 ==> (#[trigger] s0[k]).id.0 < reg.len(),
                    forall|k: int| 0 <= k < 1024 && s0[k].visited ==> (#[trigger] self.slice@[k]).visited,
                    forall|k: int| 0 <= k < 32 * (u as int) + (v as int) && drawable(reg, s0[k].id) ==> (#[trigger] self.slice@[k]).visited,
                    len0 == old(self).mesh_view().vertices@.len(),
                    len0 + 4096 <= u32::MAX,
                    self.mesh_view().vertices@.len() <= len0 + 4 * (32 * (u as int) + (v as int)),
                    indices_valid(old(self).mesh_view()) ==> indices_valid(self.mesh_view()),
                    m0 == (old(self).mesh_view().vertices@, old(self).mesh_view().indices@),
                    ts.len() == qs.len(),
                    quads_placed(reg, s0, qs),
                    forall|i: int| 0 <= i < qs.len() ==> face_texture_value(reg, (#[trigger] qs[i]).2.id, side, ts[i]),
                    (self.mesh_view().vertices@, self.mesh_view().indices@) == quads_mesh(m0, side, layer, qs, ts),
                    forall|a: int, b: int| 0 <= a < 32 && 0 <= b < 32
                        ==> (#[trigger] self.slice@[32 * a + b]).visited == (s0[32 * a + b].visited || covered(qs, a, b)),
                    forall|a: int, b: int| 0 <= a < 32 && 0 <= b < 32 && !self.slice@[32 * a + b].visited
                        ==> #[trigger] self.slice@[32 * a + b] == s0[32 * a + b],
                decreases 32 - v,
            {
                let cur = self.slice[idx(u, v)];
                proof {
                    assert(cur.id == s0[32 * (u as int) + (v as int)].id);
                }
                let is_liquid = self.mesh_constructor.registry.liquid(cur.id);
                // if the face has been expanded onto already, skip it.
                if cur.visited || !(matches!(self.mesh_constructor.registry.mesh_type(cur.id), BlockMeshType::FullCube) || is_liquid) {
                    v += 1;
                    continue;
                }
                proof {
                    assert(self.slice@[32 * (u as int) + (v as int)] == cur);
                    assert(cur == s0[32 * (u as int) + (v as int)]);
                    assert(drawable(reg, cur.id));
                }
                let mut quad = VoxelQuad::from_face(cur);
                // while the next position is in chunk bounds and is the same block face as the
                // current
                while u + quad.width < 32 && same_face(self.slice[idx(u + quad.width, v)], cur)
                    invariant
                        self.wf(),
                        u < 32,
                        v < 32,
                        1 <= quad.width,
                        u + quad.width <= 32,
                        quad.height == 1,
                        quad.id == cur.id && quad.ao == cur.ao && quad.light == cur.light,
                        forall|w: int| 0 <= w < quad.width ==> #[trigger] self.slice@[32 * ((u as int) + w) + (v as int)] == cur,
                    decreases 32 - quad.width,
                {
                    quad.width += 1;
                }
                while v + quad.height < 32
                    invariant
                        self.wf(),
                        u < 32,
                        v < 32,
                        1 <= quad.width,
                        u + quad.width <= 32,
                        1 <= quad.height,
                        v + quad.height <= 32,
                        quad.id == cur.id && quad.ao == cur.ao && quad.light == cur.light,
                        forall|w: int, h: int| 0 <= w < quad.width && 0 <= h < quad.height
                            ==> #[trigger] self.slice@[32 * ((u as int) + w) + ((v as int) + h)] == cur,
                    decreases 32 - quad.height,
                {
                    let mut all = true;
                    let mut w = u;
                    while w < u + quad.width
                        invariant_except_break
                            all,
                        invariant
                            self.wf(),
                            u <= w <= u + quad.width,
                            u + quad.width <= 32,
                            v + quad.height < 32,
                            forall|w2: int| u <= w2 < w ==> #[trigger] self.slice@[32 * w2 + ((v as int) + quad.height)] == cur,
                        ensures
                            all ==> w == u + quad.width,
                        decreases u + quad.width - w,
                    {
                        if !same_face(self.slice[idx(w, v + quad.height)], cur) {
                            all = false;
                            break;
                        }
                        w += 1;
                    }
                    if all {
                        proof {
                            assert forall|w2: int, h: int| 0 <= w2 < quad.width && 0 <= h < quad.height + 1
                                implies #[trigger] self.slice@[32 * ((u as int) + w2) + ((v as int) + h)] == cur by {
                                if h == quad.height {
                                    assert(self.slice@[32 * ((u as int) + w2) + ((v as int) + quad.height)] == cur);
                                }
                            }
                        }
                        quad.height += 1;
                    } else {
                        break;
                    }
                }
                let ghost before = self.slice@;
                let ghost qn = (u, v, quad);
                proof {
                    assert(cur == quad_face(quad));
                    assert forall|a: int, b: int| #[trigger] in_quad(qn, a, b) implies before[32 * a + b] == cur
                        && s0[32 * a + b] == quad_face(quad) && !covered(qs, a, b) by {
                        assert(before[32 * ((u as int) + (a - u)) + ((v as int) + (b - v))] == cur);
                    }
                }
                self.mark_visited(u, v, quad.width, quad.height);
                proof {
                    assert(self.slice@[32 * ((u as int) + 0) + ((v as int) + 0)].visited);
                    assert(has_textures(reg, quad.id));
                }
                let ghost mb = self.mesh_constructor.terrain_mesh;
                let pos = slice_coordinate(side, layer, u, v);
                mesh_full_cube_side(&mut self.mesh_constructor, quad, side, pos);
                proof {
                    let t = choose|t: TextureId| #[trigger] is_face_texture(reg, quad.id, side, t)
                        && (self.mesh_constructor.terrain_mesh.vertices@, self.mesh_constructor.terrain_mesh.indices@) == mesh_extended(
                            mb,
                            cube_side_vertices(quad, side, pos, t.0 as u16),
                            quad_indices(spec_flipped(quad), spec_clockwise(side)),
                        );
                    let qs0 = qs;
                    let ts0 = ts;
                    qs = qs0.push(qn);
                    ts = ts0.push(t.0 as u16);
                    assert(qs.drop_last() =~= qs0);
                    assert(ts.drop_last() =~= ts0);
                    assert((self.mesh_view().vertices@, self.mesh_view().indices@) == quads_mesh(m0, side, layer, qs, ts));
                    assert forall|i: int| 0 <= i < qs.len() implies face_texture_value(reg, (#[trigger] qs[i]).2.id, side, ts[i]) by {
                        if i < qs0.len() {
                            assert(qs[i] == qs0[i] && ts[i] == ts0[i]);
                        } else {
                            assert(is_face_texture(reg, quad.id, side, t));
                        }
                    }
                    assert forall|a: int, b: int| 0 <= a < 32 && 0 <= b < 32 implies covered(qs, a, b) == (covered(qs0, a, b) || in_quad(qn, a, b)) by {
                        if covered(qs0, a, b) {
                            let i = choose|i: int| 0 <= i < qs0.len() && #[trigger] in_quad(qs0[i], a, b);
                            assert(qs[i] == qs0[i]);
                        }
                        if in_quad(qn, a, b) {
                            assert(qs[qs0.len() as int] == qn);
                        }
                        if covered(qs, a, b) {
                            let i = choose|i: int| 0 <= i < qs.len() && #[trigger] in_quad(qs[i], a, b);
                            if i < qs0.len() {
                                assert(qs[i] == qs0[i]);
                            }
                        }
                    }
                    assert forall|a: int, b: int| 0 <= a < 32 && 0 <= b < 32
                        implies (#[trigger] self.slice@[32 * a + b]).visited == (s0[32 * a + b].visited || covered(qs, a, b)) by {
                        if in_quad(qn, a, b) {
                            assert(self.slice@[32 * ((u as int) + (a - u)) + ((v as int) + (b - v))].visited);
                        }
                    }
                    assert forall|a: int, b: int| 0 <= a < 32 && 0 <= b < 32 && !self.slice@[32 * a + b].visited
                        implies #[trigger] self.slice@[32 * a + b] == s0[32 * a + b] by {
                        if in_quad(qn, a, b) {
                            assert(self.slice@[32 * ((u as int) + (a - u)) + ((v as int) + (b - v))].visited);
                        }
                    }
                    assert(quads_placed(reg, s0, qs)) by {
                        assert forall|i: int| 0 <= i < qs.len() implies {
                            let q = #[trigger] qs[i];
                            &&& 1 <= q.2.width && q.0 + q.2.width <= 32
                            &&& 1 <= q.2.height && q.1 + q.2.height <= 32
                            &&& drawable(reg, q.2.id)
                        } by {
                            if i < qs0.len() {
                                assert(qs[i] == qs0[i]);
                            }
                        }
                        assert forall|i: int, a: int, b: int| 0 <= i < qs.len() && #[trigger] in_quad(qs[i], a, b)
                            implies s0[32 * a + b] == quad_face(qs[i].2) by {
                            if i < qs0.len() {
                                assert(qs[i] == qs0[i]);
                            }
                        }
                        assert forall|i: int, j: int, a: int, b: int| 0 <= i < qs.len() && 0 <= j < qs.len() && i != j && #[trigger] in_quad(qs[i], a, b)
                            implies !#[trigger] in_quad(qs[j], a, b) by {
                            if i < qs0.len() && j < qs0.len() {
                                assert(qs[i] == qs0[i] && qs[j] == qs0[j]);
                            } else if i < qs0.len() {
                                assert(qs[i] == qs0[i]);
                                assert(covered(qs0, a, b));
                            } else {
                                assert(qs[j] == qs0[j]);
                                if in_quad(qs[j], a, b) {
                                    assert(covered(qs0, a, b));
                                }
                            }
                        }
                    }
                }
                v += 1;
            }
            u += 1;
        }
        proof {
            assert(greedy_cover(reg, s0, qs)) by {
                assert forall|a: int, b: int| 0 <= a < 32 && 0 <= b < 32 && !s0[32 * a + b].visited && drawable(reg, #[trigger] s0[32 * a + b].id)
                    implies covered(qs, a, b) by {
                    assert(self.slice@[32 * a + b].visited);
                }
            }
        }
    }

    /// Puts the face at `(u, v)` of layer `layer` along `side` into the
    /// slice.
    #[verifier::rlimit(100)]
    #[verifier::spinoff_prover]
    fn fill_slice_face(&mut self, side: Side, layer: u16, u: u16, v: u16, normal: [i32; 3])
        requires
            old(self).wf(),
            layer < 32 && u < 32 && v < 32,
            normal == crate::side::spec_normal(side),
        ensures
            final(self).wf(),
            final(self).registry_view() == old(self).registry_view(),
            final(self).neighbors_view() == old(self).neighbors_view(),
            final(self).pos_view() == old(self).pos_view(),
            final(self).lighting_view() == old(self).lighting_view(),
            final(self).mesh_view() == old(self).mesh_view(),
            final(self).slice@ == old(self).slice@.update(32 * (u as int) + (v as int), old(self).slice_face(side, layer, u as int, v as int)),
    {
        let pos = slice_coordinate(side, layer, u, v);
        let cur_id = self.chunks.id([pos[0] as i16, pos[1] as i16, pos[2] as i16]);
        let neighbor_id = self.chunks.id([
            (pos[0] as i32 + normal[0]) as i16,
            (pos[1] as i32 + normal[1]) as i16,
            (pos[2] as i32 + normal[2]) as i16,
        ]);
        proof {
            self.chunks.lemma_block_below(self.mesh_constructor.registry.len(), pos[0] as int, pos[1] as int, pos[2] as int);
            self.chunks.lemma_block_below(
                self.mesh_constructor.registry.len(),
                pos[0] + normal[0],
                pos[1] + normal[1],
                pos[2] + normal[2],
            );
        }
        let face = if should_add_face(&self.mesh_constructor.registry, cur_id, neighbor_id) {
            VoxelFace::new(self.face_ao(pos, side), self.face_light(pos, side), cur_id)
        } else {
            VoxelFace::visited()
        };
        proof {
            self.lemma_slice_face(self, side, layer, u, v, cur_id, neighbor_id, face);
        }
        let i = idx(u, v);
        let ghost before = self.slice@;
        self.slice.set(i, face);
        proof {
            assert forall|k: int| 0 <= k < 1024 implies (#[trigger] self.slice@[k]).id.0 < self.mesh_constructor.registry.len() by {
                if k != i {
                    assert(self.slice@[k] == before[k]);
                }
            }
        }
    }

    /// Meshes the section slice by slice along `side`'s axis: each block
    /// face on `side` that should be drawn goes into the slice, then the
    /// slice's faces are merged into quads.
    #[verifier::rlimit(100)]
    #[verifier::spinoff_prover]
    fn mesh_slice(&mut self, side: Side)
        requires
            old(self).wf(),
            textures_ready(old(self).registry_view()),
            old(self).mesh_view().vertices@.len() + 32 * 4096 <= u32::MAX,
        ensures
            final(self).wf(),
            final(self).registry_view() == old(self).registry_view(),
            final(self).neighbors_view() == old(self).neighbors_view(),
            final(self).pos_view() == old(self).pos_view(),
            final(self).lighting_view() == old(self).lighting_view(),
            final(self).mesh_view().vertices@.len() <= old(self).mesh_view().vertices@.len() + 32 * 4096,
            indices_valid(old(self).mesh_view()) ==> indices_valid(final(self).mesh_view()),
            exists|qss: Seq<Seq<(u16, u16, VoxelQuad)>>, tss: Seq<Seq<u16>>| {
                &&& qss.len() == 32 && tss.len() == 32
                &&& old(self).layers_merged(side, qss, tss, 32)
                &&& (final(self).mesh_view().vertices@, final(self).mesh_view().indices@)
                    == Self::layers_mesh((old(self).mesh_view().vertices@, old(self).mesh_view().indices@), side, qss, tss, 32)
            },
    {
        let normal = side.normal();
        let ghost len0 = self.mesh_view().vertices@.len();
        let ghost ctx0 = *self;
        let ghost m0 = (self.mesh_view().vertices@, self.mesh_view().indices@);
        let ghost mut qss: Seq<Seq<(u16, u16, VoxelQuad)>> = Seq::empty();
        let ghost mut tss: Seq<Seq<u16>> = Seq::empty();
        let mut layer: u16 = 0;
        while layer < 32
            invariant
                self.wf(),
                textures_ready(self.registry_view()),
                self.registry_view() == old(self).registry_view(),
                self.neighbors_view() == old(self).neighbors_view(),
                self.pos_view() == old(self).pos_view(),
                self.lighting_view() == old(self).lighting_view(),
                normal == crate::side::spec_normal(side),
                layer <= 32,
                len0 == old(self).mesh_view().vertices@.len(),
                len0 + 32 * 4096 <= u32::MAX,
                self.mesh_view().vertices@.len() <= len0 + 4096 * (layer as int),
                indices_valid(old(self).mesh_view()) ==> indices_valid(self.mesh_view()),
                ctx0 == *old(self),
                m0 == (ctx0.mesh_view().vertices@, ctx0.mesh_view().indices@),
                qss.len() == layer && tss.len() == layer,
                ctx0.layers_merged(side, qss, tss, layer as int),
                (self.mesh_view().vertices@, self.mesh_view().indices@) == Self::layers_mesh(m0, side, qss, tss, layer as int),
            decreases 32 - layer,
        {
            let mut u: u16 = 0;
            while u < 32
                invariant
                    self.wf(),
                    textures_ready(self.registry_view()),
                    self.registry_view() == old(self).registry_view(),
                    self.neighbors_view() == old(self).neighbors_view(),
                    self.pos_view() == old(self).pos_view(),
                    self.lighting_view() == old(self).lighting_view(),
                    normal == crate::side::spec_normal(side),
                    layer < 32,
                    u <= 32,
                    len0 == old(self).mesh_view().vertices@.len(),
                    len0 + 32 * 4096 <= u32::MAX,
                    self.mesh_view().vertices@.len() <= len0 + 4096 * (layer as int),
                    indices_valid(old(self).mesh_view()) ==> indices_valid(self.mesh_view()),
                    ctx0 == *old(self),
                    (self.mesh_view().vertices@, self.mesh_view().indices@) == Self::layers_mesh(m0, side, qss, tss, layer as int),
                    forall|a: int, b: int| 0 <= a < u && 0 <= b < 32 ==> #[trigger] self.slice@[32 * a + b] == ctx0.slice_face(side, layer, a, b),
                decreases 32 - u,
            {
                let mut v: u16 = 0;
                while v < 32
                    invariant
                        self.wf(),
                        textures_ready(self.registry_view()),
                        self.registry_view() == old(self).registry_view(),
                        self.neighbors_view() == old(self).neighbors_view(),
                        self.pos_view() == old(self).pos_view(),
                        self.lighting_view() == old(self).lighting_view(),
                        normal == crate::side::spec_normal(side),
                        layer < 32,
                        u < 32,
                        v <= 32,
                        len0 == old(self).mesh_view().vertices@.len(),
                        len0 + 32 * 4096 <= u32::MAX,
                        self.mesh_view().vertices@.len() <= len0 + 4096 * (layer as int),
                        indices_valid(old(self).mesh_view()) ==> indices_valid(self.mesh_view()),
                        ctx0 == *old(self),
                        (self.mesh_view().vertices@, self.mesh_view().indices@) == Self::layers_mesh(m0, side, qss, tss, layer as int),
                        forall|a: int, b: int| 0 <= a < u && 0 <= b < 32 ==> #[trigger] self.slice@[32 * a + b] == ctx0.slice_face(side, layer, a, b),
                        forall|b: int| 0 <= b < v ==> #[trigger] self.slice@[32 * (u as int) + b] == ctx0.slice_face(side, layer, u as int, b),
                    decreases 32 - v,
                {
                    let ghost before = self.slice@;
                    let ghost pre = *self;
                    self.fill_slice_face(side, layer, u, v, normal);
                    proof {
                        pre.lemma_slice_face_views(&ctx0, side, layer, u as int, v as int);
                        assert forall|a: int, b: int| 0 <= a < u && 0 <= b < 32 implies #[trigger] self.slice@[32 * a + b] == ctx0.slice_face(side, layer, a, b) by {
                            assert(self.slice@[32 * a + b] == before[32 * a + b]);
                        }
                        assert forall|b: int| 0 <= b < v + 1 implies #[trigger] self.slice@[32 * (u as int) + b] == ctx0.slice_face(side, layer, u as int, b) by {
                            if b < v {
                                assert(self.slice@[32 * (u as int) + b] == before[32 * (u as int) + b]);
                            }
                        }
                    }
                    v += 1;
                }
                u += 1;
            }
            proof {
                assert(forall|k: int| 0 <= k < 1024 ==> (#[trigger] self.slice_view()[k]).id.0 < self.registry_view().len());
                assert forall|k: int| 0 <= k < 1024 implies #[trigger] self.slice@[k] == ctx0.slice_faces(side, layer)[k] by {
                    let (a, b) = (k / 32, k % 32);
                    assert(32 * a + b == k && 0 <= a < 32 && 0 <= b < 32);
                    assert(self.slice@[32 * a + b] == ctx0.slice_face(side, layer, a, b));
                }
                assert(self.slice@ =~= ctx0.slice_faces(side, layer));
            }
            let ghost mb = (self.mesh_view().vertices@, self.mesh_view().indices@);
            self.submit_quads(side, layer);
            proof {
                let (qs, ts) = choose|qs: Seq<(u16, u16, VoxelQuad)>, ts: Seq<u16>| {
                    &&& ts.len() == qs.len()
                    &&& greedy_cover(ctx0.registry_view(), ctx0.slice_faces(side, layer), qs)
                    &&& forall|i: int| 0 <= i < qs.len() ==> face_texture_value(ctx0.registry_view(), (#[trigger] qs[i]).2.id, side, ts[i])
                    &&& (self.mesh_view().vertices@, self.mesh_view().indices@) == quads_mesh(mb, side, layer, qs, ts)
                };
                let qss0 = qss;
                let tss0 = tss;
                qss = qss0.push(qs);
                tss = tss0.push(ts);
                assert(Self::layers_mesh(m0, side, qss, tss, layer as int) == Self::layers_mesh(m0, side, qss0, tss0, layer as int)) by {
                    assert forall|l: int| 0 <= l < layer implies #[trigger] qss[l] == qss0[l] && tss[l] == tss0[l] by {}
                    Self::lemma_layers_mesh_prefix(m0, side, qss, tss, qss0, tss0, layer as int);
                }
                assert(qss[layer as int] == qs && tss[layer as int] == ts);
                assert(ctx0.layers_merged(side, qss, tss, layer + 1)) by {
                    assert forall|l: int| 0 <= l < layer + 1 implies {
                        &&& #[trigger] tss[l].len() == qss[l].len()
                        &&& greedy_cover(ctx0.registry_view(), ctx0.slice_faces(side, l as u16), qss[l])
                        &&& forall|i: int| 0 <= i < qss[l].len() ==> face_texture_value(ctx0.registry_view(), (#[trigger] qss[l][i]).2.id, side, tss[l][i])
                    } by {
                        if l < layer {
                            assert(qss[l] == qss0[l] && tss[l] == tss0[l]);
                            assert(tss0[l].len() == qss0[l].len());
                        }
                    }
                }
            }
            layer += 1;
        }
    }

    /// Meshes the section merging equal neighboring faces: crosses first,
    /// then the slices along each axis. The mesh is the section's crosses in
    /// meshing order, then for each side in [`side_order`] and each layer,
    /// quads that cover every face to be drawn exactly once and only equal
    /// faces; textures are picked at random among each block's own.
    pub fn mesh_greedy(self) -> (r: CompletedMesh)
        requires
            self.wf(),
            textures_ready(self.registry_view()),
            indices_valid(self.mesh_view()),
            self.mesh_view().vertices@.len() == 0,
        ensures
            r matches CompletedMesh::Completed { pos, terrain } && pos == self.pos_view() && indices_valid(terrain)
                && exists|tex: spec_fn(int, int) -> u16, qsss: Seq<Seq<Seq<(u16, u16, VoxelQuad)>>>, tsss: Seq<Seq<Seq<u16>>>| {
                    &&& self.cross_textures_ok(tex, 32768)
                    &&& qsss.len() == 6 && tsss.len() == 6
                    &&& self.sides_merged(qsss, tsss, 6)
                    &&& (terrain.vertices@, terrain.indices@) == Self::sides_mesh(self.crosses_mesh(tex, 32768), qsss, tsss, 6)
                },
    {
        let mut this = self;
        let ghost base = self;
        let ghost mut tex: spec_fn(int, int) -> u16 = |b: int, k: int| 0u16;
        proof {
            if self.mesh_view().indices@.len() > 0 {
                assert(self.mesh_view().indices@[0] < self.mesh_view().vertices@.len());
            }
            assert(self.mesh_view().vertices@ =~= Seq::<TerrainVertex>::empty());
            assert(self.mesh_view().indices@ =~= Seq::<u32>::empty());
        }
        let mut x: u16 = 0;
        while x < 32
            invariant
                this.wf(),
                textures_ready(this.registry_view()),
                this.registry_view() == base.registry_view(),
                this.neighbors_view() == base.neighbors_view(),
                this.pos_view() == base.pos_view(),
                this.lighting_view() == base.lighting_view(),
                x <= 32,
                this.mesh_view().vertices@.len() <= 8192 * (x as int),
                indices_valid(this.mesh_view()),
                base.cross_textures_ok(tex, 1024 * x),
                (this.mesh_view().vertices@, this.mesh_view().indices@) == base.crosses_mesh(tex, 1024 * x),
            decreases 32 - x,
        {
            let mut z: u16 = 0;
            while z < 32
                invariant
                    this.wf(),
                    textures_ready(this.registry_view()),
                    this.registry_view() == base.registry_view(),
                    this.neighbors_view() == base.neighbors_view(),
                    this.pos_view() == base.pos_view(),
                    this.lighting_view() == base.lighting_view(),
                    x < 32,
                    z <= 32,
                    this.mesh_view().vertices@.len() <= 8192 * (x as int) + 256 * (z as int),
                    indices_valid(this.mesh_view()),
                    base.cross_textures_ok(tex, 1024 * x + 32 * z),
                    (this.mesh_view().vertices@, this.mesh_view().indices@) == base.crosses_mesh(tex, 1024 * x + 32 * z),
                decreases 32 - z,
            {
                let mut y: u16 = 0;
                while y < 32
                    invariant
                        this.wf(),
                        textures_ready(this.registry_view()),
                        this.registry_view() == base.registry_view(),
                        this.neighbors_view() == base.neighbors_view(),
                        this.pos_view() == base.pos_view(),
                        this.lighting_view() == base.lighting_view(),
                        x < 32,
                        z < 32,
                        y <= 32,
                        this.mesh_view().vertices@.len() <= 8192 * (x as int) + 256 * (z as int) + 8 * (y as int),
                        indices_valid(this.mesh_view()),
                        base.cross_textures_ok(tex, 1024 * x + 32 * z + y),
                        (this.mesh_view().vertices@, this.mesh_view().indices@) == base.crosses_mesh(tex, 1024 * x + 32 * z + y),
                    decreases 32 - y,
                {
                    let pos = [x, y, z];
                    let ghost b: int = 1024 * x + 32 * z + y;
                    proof {
                        let (xi, yi, zi) = (x as int, y as int, z as int);
                        assert(b / 1024 == xi && b % 32 == yi && (b / 32) % 32 == zi) by (nonlinear_arith)
                            requires b == 1024 * xi + 32 * zi + yi, 0 <= xi < 32, 0 <= yi < 32, 0 <= zi < 32;
                        assert(meshing_pos(b) == pos);
                    }
                    let id = this.chunks.id([x as i16, y as i16, z as i16]);
                    let light = this.chunks.light([x as i16, y as i16, z as i16]);
                    proof {
                        this.chunks.lemma_block_below(this.mesh_constructor.registry.len(), x as int, y as int, z as int);
                        assert(base.block_id_at(b) == id);
                    }
                    let ghost tb = this;
                    let ghost tex0 = tex;
                    if matches!(this.mesh_constructor.registry.mesh_type(id), BlockMeshType::Cross) {
                        proof {
                            assert(has_textures(this.registry_view(), id));
                        }
                        mesh_cross(&mut this.mesh_constructor, id, pos, light);
                        proof {
                            let t = choose|t: TextureId| #[trigger] is_face_texture(base.registry_view(), id, Side::Right, t)
                                && (this.mesh_view().vertices@, this.mesh_view().indices@) == mesh_extended(
                                    tb.mesh_view(),
                                    cross_vertices(pos, light, t.0 as u16),
                                    cross_indices(),
                                );
                            let tex2 = |b2: int, k: int| if b2 == b { t.0 as u16 } else { tex(b2, k) };
                            base.lemma_crosses_prefix(tex, tex2, b);
                            tex = tex2;
                        }
                    }
                    proof {
                        assert(base.crosses_mesh(tex, b + 1) == base.cross_mesh_onto(base.crosses_mesh(tex, b), b, tex));
                        assert forall|b2: int| 0 <= b2 < b + 1 && base.registry_view().entry((#[trigger] base.block_id_at(b2)).0 as int).mesh_type == BlockMeshType::Cross
                            implies face_texture_value(base.registry_view(), base.block_id_at(b2), Side::Right, tex(b2, 0)) by {
                            if b2 < b {
                                assert(tex(b2, 0) == tex0(b2, 0));
                            }
                        }
                    }
                    y += 1;
                }
                z += 1;
            }
            x += 1;
        }
        let ghost c = (this.mesh_view().vertices@, this.mesh_view().indices@);
        let ghost mut qsss: Seq<Seq<Seq<(u16, u16, VoxelQuad)>>> = Seq::empty();
        let ghost mut tsss: Seq<Seq<Seq<u16>>> = Seq::empty();
        let ghost mut pre = this;
        this.mesh_slice(Side::Right);
        proof {
            let r = base.lemma_side_done(&pre, c, qsss, tsss, 0, (this.mesh_view().vertices@, this.mesh_view().indices@));
            qsss = r.0;
            tsss = r.1;
            pre = this;
        }
        this.mesh_slice(Side::Left);
        proof {
            let r = base.lemma_side_done(&pre, c, qsss, tsss, 1, (this.mesh_view().vertices@, this.mesh_view().indices@));
            qsss = r.0;
            tsss = r.1;
            pre = this;
        }
        this.mesh_slice(Side::Top);
        proof {
            let r = base.lemma_side_done(&pre, c, qsss, tsss, 2, (this.mesh_view().vertices@, this.mesh_view().indices@));
            qsss = r.0;
            tsss = r.1;
            pre = this;
        }
        this.mesh_slice(Side::Bottom);
        proof {
            let r = base.lemma_side_done(&pre, c, qsss, tsss, 3, (this.mesh_view().vertices@, this.mesh_view().indices@));
            qsss = r.0;
            tsss = r.1;
            pre = this;
        }
        this.mesh_slice(Side::Front);
        proof {
            let r = base.lemma_side_done(&pre, c, qsss, tsss, 4, (this.mesh_view().vertices@, this.mesh_view().indices@));
            qsss = r.0;
            tsss = r.1;
            pre = this;
        }
        this.mesh_slice(Side::Back);
        proof {
            let r = base.lemma_side_done(&pre, c, qsss, tsss, 5, (this.mesh_view().vertices@, this.mesh_view().indices@));
            qsss = r.0;
            tsss = r.1;
        }
        CompletedMesh::Completed { pos: this.pos, terrain: this.mesh_constructor.terrain_mesh }
    }
}

} // verus!
