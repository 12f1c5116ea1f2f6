pub mod access;
pub mod chunk;
pub mod chunk_access;
pub mod chunk_update;
pub mod dedup_queue;
pub mod generation;
pub mod lighting;
pub mod loader;
pub mod persistence;
pub mod propagation;
pub mod registry;
pub mod section_update;

use crate::util::{floor_div, spec_floor_div, ConcreteEq};
use chunk::{ChunkSectionPos, CHUNK_LENGTH};
use vstd::prelude::*;
use vstd::std_specs::cmp::PartialEqSpecImpl;
use vstd::std_specs::convert::FromSpecImpl;

verus! {

/// The position of a block in the world.
#[derive(Copy, Clone, Debug, Eq, Ord, PartialOrd, Hash)]
pub struct BlockPos {
    pub x: i32,
    pub y: i32,
    pub z: i32,
}

impl PartialEq for BlockPos {
    fn eq(&self, other: &Self) -> (r: bool) {
        self.x == other.x && self.y == other.y && self.z == other.z
    }
}

impl PartialEqSpecImpl for BlockPos {
    open spec fn obeys_eq_spec() -> bool {
        true
    }

    open spec fn eq_spec(&self, other: &Self) -> bool {
        self.x == other.x && self.y == other.y && self.z == other.z
    }
}

impl ConcreteEq for BlockPos {
    proof fn lemma_eq_is_equality() {
        reveal(vstd::laws_eq::obeys_concrete_eq);
    }
}

/// The position of a column of chunk sections.
#[derive(Copy, Clone, Debug, Eq, Ord, PartialOrd, Hash)]
pub struct ChunkPos {
    pub x: i32,
    pub z: i32,
}

impl PartialEq for ChunkPos {
    fn eq(&self, other: &Self) -> (r: bool) {
        self.x == other.x && self.z == other.z
    }
}

impl PartialEqSpecImpl for ChunkPos {
    open spec fn obeys_eq_spec() -> bool {
        true
    }

    open spec fn eq_spec(&self, other: &Self) -> bool {
        self.x == other.x && self.z == other.z
    }
}

impl ConcreteEq for ChunkPos {
    proof fn lemma_eq_is_equality() {
        reveal(vstd::laws_eq::obeys_concrete_eq);
    }
}

/// `a + b` fits in an `i32`.
pub open spec fn fits_i32(v: int) -> bool {
    i32::MIN <= v <= i32::MAX
}

/// The section that holds a block: each coordinate divided by the chunk
/// length, rounded down.
pub open spec fn section_of(pos: BlockPos) -> ChunkSectionPos {
    ChunkSectionPos {
        x: spec_floor_div(pos.x as int, 32) as i32,
        y: spec_floor_div(pos.y as int, 32) as i32,
        z: spec_floor_div(pos.z as int, 32) as i32,
    }
}

impl ChunkSectionPos {
    pub fn new(pos: [i32; 3]) -> (r: Self)
        ensures
            r == (ChunkSectionPos { x: pos[0], y: pos[1], z: pos[2] }),
    {
        Self { x: pos[0], y: pos[1], z: pos[2] }
    }

    pub fn offset(self, offset: [i32; 3]) -> (r: Self)
        requires
            fits_i32(offset[0] + self.x),
            fits_i32(offset[1] + self.y),
            fits_i32(offset[2] + self.z),
        ensures
            r.x == offset[0] + self.x,
            r.y == offset[1] + self.y,
            r.z == offset[2] + self.z,
    {
        Self { x: offset[0] + self.x, y: offset[1] + self.y, z: offset[2] + self.z }
    }

    /// The block at the lowest corner of this section.
    pub fn origin(self) -> (r: BlockPos)
        requires
            fits_i32(32 * self.x),
            fits_i32(32 * self.y),
            fits_i32(32 * self.z),
        ensures
            r.x == 32 * self.x && r.y == 32 * self.y && r.z == 32 * self.z,
    {
        BlockPos {
            x: CHUNK_LENGTH as i32 * self.x,
            y: CHUNK_LENGTH as i32 * self.y,
            z: CHUNK_LENGTH as i32 * self.z,
        }
    }
}

pub proof fn lemma_floor_div_32(v: i32)
    ensures
        spec_floor_div(v as int, 32) * 32 <= v < spec_floor_div(v as int, 32) * 32 + 32,
        fits_i32(32 * spec_floor_div(v as int, 32)),
        -0x400_0000 <= spec_floor_div(v as int, 32) < 0x400_0000,
{
    let q = spec_floor_div(v as int, 32);
    assert(q * 32 <= v < q * 32 + 32) by (nonlinear_arith)
        requires
            q == v / 32,
    ;
}

impl BlockPos {
    pub fn new(pos: [i32; 3]) -> (r: Self)
        ensures
            r == (BlockPos { x: pos[0], y: pos[1], z: pos[2] }),
    {
        Self { x: pos[0], y: pos[1], z: pos[2] }
    }

    pub fn offset(self, offset: [i32; 3]) -> (r: Self)
        requires
            fits_i32(offset[0] + self.x),
            fits_i32(offset[1] + self.y),
            fits_i32(offset[2] + self.z),
        ensures
            r.x == offset[0] + self.x,
            r.y == offset[1] + self.y,
            r.z == offset[2] + self.z,
    {
        Self { x: offset[0] + self.x, y: offset[1] + self.y, z: offset[2] + self.z }
    }

    /// The section holding this block, and the block's offset inside it.
    pub fn section_and_offset(self) -> (r: (ChunkSectionPos, [usize; 3]))
        ensures
            r.0 == section_of(self),
            r.1[0] == self.x - 32 * r.0.x,
            r.1[1] == self.y - 32 * r.0.y,
            r.1[2] == self.z - 32 * r.0.z,
            r.1[0] < 32 && r.1[1] < 32 && r.1[2] < 32,
    {
        let section_pos = ChunkSectionPos::from(self);
        proof {
            lemma_floor_div_32(self.x);
            lemma_floor_div_32(self.y);
            lemma_floor_div_32(self.z);
        }
        let block_base = section_pos.origin();
        let offset = [
            (self.x - block_base.x) as usize,
            (self.y - block_base.y) as usize,
            (self.z - block_base.z) as usize,
        ];
        (section_pos, offset)
    }
}

impl From<BlockPos> for ChunkSectionPos {
    fn from(pos: BlockPos) -> (r: Self) {
        let x = floor_div(pos.x, CHUNK_LENGTH as i32);
        let y = floor_div(pos.y, CHUNK_LENGTH as i32);
        let z = floor_div(pos.z, CHUNK_LENGTH as i32);
        proof {
            lemma_floor_div_32(pos.x);
            lemma_floor_div_32(pos.y);
            lemma_floor_div_32(pos.z);
        }
        ChunkSectionPos { x, y, z }
    }
}

impl FromSpecImpl<BlockPos> for ChunkSectionPos {
    open spec fn obeys_from_spec() -> bool {
        true
    }

    open spec fn from_spec(pos: BlockPos) -> Self {
        section_of(pos)
    }
}

impl ChunkPos {
    pub fn section(&self, y: i32) -> (r: ChunkSectionPos)
        ensures
            r == (ChunkSectionPos { x: self.x, y, z: self.z }),
    {
        ChunkSectionPos { x: self.x, y, z: self.z }
    }
}

impl From<ChunkSectionPos> for ChunkPos {
    fn from(pos: ChunkSectionPos) -> (r: Self) {
        Self { x: pos.x, z: pos.z }
    }
}

impl FromSpecImpl<ChunkSectionPos> for ChunkPos {
    open spec fn obeys_from_spec() -> bool {
        true
    }

    open spec fn from_spec(pos: ChunkSectionPos) -> Self {
        ChunkPos { x: pos.x, z: pos.z }
    }
}


/// What happened to chunks, for the debug view.
#[derive(Copy, Clone, Debug, Eq, PartialEq, Hash)]
pub enum WorldLoadEvent {
    Loaded(ChunkPos),
    Unloaded(ChunkPos),
    Modified(ChunkPos),
    LoadedSection(ChunkSectionPos),
    UnloadedSection(ChunkSectionPos),
    ModifiedSection(ChunkSectionPos),
}

/// How chunk sections were accessed, for the debug view.
#[derive(Copy, Clone, Debug, Eq, PartialEq, Hash)]
pub enum WorldAccessEvent {
    Read(ChunkSectionPos),
    Written(ChunkSectionPos),
    Orphaned(ChunkSectionPos),
}

/// A block that changed, with its previous and new kind.
#[derive(Copy, Clone, Debug, Eq, PartialEq, Hash)]
pub struct BlockUpdateEvent {
    pub pos: BlockPos,
    pub old_id: registry::BlockId,
    pub new_id: registry::BlockId,
}

#[derive(Copy, Clone, Debug, Eq, PartialEq, Hash)]
pub struct ChunkLoadEvent(pub ChunkPos);

#[derive(Copy, Clone, Debug, Eq, PartialEq, Hash)]
pub struct ChunkSectionLoadEvent(pub ChunkSectionPos);

#[derive(Copy, Clone, Debug, Eq, PartialEq, Hash)]
pub struct ChunkUnloadEvent(pub ChunkPos);

#[derive(Copy, Clone, Debug, Eq, PartialEq, Hash)]
pub struct ChunkSectionUnloadEvent(pub ChunkSectionPos);

/// An event that can be handled once: the first `handle` gives its value,
/// every later one gives nothing.
#[derive(Debug)]
pub struct Handleable<T> {
    value: T,
    handled: bool,
}

impl<T: Clone> Handleable<T> {
    /// The value the event carries.
    pub closed spec fn value(&self) -> T {
        self.value
    }

    /// Some `handle` has already taken the value.
    pub closed spec fn is_handled(&self) -> bool {
        self.handled
    }

    pub fn new(value: T) -> (r: Self)
        ensures
            r.value() == value,
            !r.is_handled(),
    {
        Self { value, handled: false }
    }

    /// Takes the event: a copy of its value the first time, `None` after.
    pub fn handle(&mut self) -> (r: Option<T>)
        ensures
            final(self).value() == old(self).value(),
            final(self).is_handled(),
            old(self).is_handled() ==> r is None,
            !old(self).is_handled() ==> (r matches Some(v) && cloned(old(self).value(), v)),
    {
        if self.handled {
            None
        } else {
            self.handled = true;
            Some(self.value.clone())
        }
    }
}

/// The chunk and section load events of one update, each to be handled by
/// one reader.
#[derive(Debug)]
pub struct LoadEvents {
    pub chunk_load: Vec<Handleable<ChunkLoadEvent>>,
    pub chunk_unload: Vec<Handleable<ChunkUnloadEvent>>,
    pub section_load: Vec<Handleable<ChunkSectionLoadEvent>>,
    pub section_unload: Vec<Handleable<ChunkSectionUnloadEvent>>,
}

/// Keeps the chunks around an entity loaded.
#[derive(Copy, Clone, Debug, Eq, PartialEq, Hash, Default)]
pub struct DynamicChunkLoader {
    pub load_radius: usize,
    pub unload_radius: usize,
}

/// What a ray does after a block.
#[derive(Copy, Clone, Debug)]
pub enum RaycastStep {
    Continue,
    Exit,
    Hit,
}

/// The block a ray hit, and the side it entered by.
#[derive(Copy, Clone, Debug)]
pub struct RaycastHit {
    pub pos: BlockPos,
    /// `None` when the block the ray started in was an immediate hit.
    pub side: Option<crate::side::Side>,
}

/// The name of a stage of the world's systems.
#[derive(Copy, Clone, Debug, Eq, PartialEq, Hash)]
pub struct WorldLabel(pub &'static str);

/// The world's settings: where the block registry is read from, and the
/// seed of the terrain.
#[derive(Debug, Default)]
pub struct WorldPlugin {
    pub registry_path: Option<String>,
    pub seed: Option<u64>,
}

impl WorldPlugin {
    pub fn with_registry_path(self, path: &str) -> (r: Self)
        ensures
            r.registry_path matches Some(p) && p@ == path@,
            r.seed == self.seed,
    {
        let mut this = self;
        this.registry_path = Some(path.to_owned());
        this
    }

    pub fn with_seed(self, seed: u64) -> (r: Self)
        ensures
            r.seed == Some(seed),
            r.registry_path == self.registry_path,
    {
        let mut this = self;
        this.seed = Some(seed);
        this
    }
}

} // verus!
