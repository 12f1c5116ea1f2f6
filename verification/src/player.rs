//! The player's controls: which entity the camera follows, and the terrain
//! tool that breaks and places blocks.
//!
//! The decisions are taken here from the inputs of a frame; reading the
//! input devices, tracing the view ray and drawing the highlighted boxes are
//! left to the caller.
use crate::mesher::MesherMode;
use crate::side::{spec_axis, spec_facing_positive, spec_normal, Axis, Side};
use crate::vecmap::{VecMap, VecSet};
use crate::world::access::MutableChunkAccess;
use crate::world::propagation::ids_registered;
use crate::world::registry::CollisionType;
use crate::world::registry::{air, BlockId};
use crate::world::{BlockPos, RaycastHit};
use vstd::prelude::*;

verus! {

/// The entity the player steers.
#[derive(Copy, Clone, Debug, PartialEq)]
pub struct PlayerController {
    pub player: u64,
}

/// Whether the camera follows an entity or stays where it is.
#[derive(Copy, Clone, Debug, PartialEq)]
pub enum CameraControllerMode {
    Follow(u64),
    Static,
}

/// The camera entity and how it moves.
#[derive(Copy, Clone, Debug, PartialEq)]
pub struct CameraController {
    pub camera: u64,
    pub mode: CameraControllerMode,
}

/// The stage that steers the player.
#[derive(Copy, Clone, Debug, Hash, PartialEq, Eq)]
pub struct PlayerControllerUpdate;

/// The stage that moves the camera, after the player's.
#[derive(Copy, Clone, Debug, Hash, PartialEq, Eq)]
pub struct CameraControllerUpdate;

/// The plugins every client runs.
#[derive(Copy, Clone, Debug, Eq, PartialEq, Ord, PartialOrd, Hash, Default)]
pub struct DefaultPlugins;

/// The window and its graphics context.
#[derive(Debug, Default)]
pub struct WindowingPlugin {}

/// The command line of the client.
#[derive(Clone, Debug)]
pub struct RunOptions {
    pub mesher_mode: MesherMode,
    /// The debug events to switch on; all of them when the list is empty.
    pub enable_debug_events: Option<Vec<String>>,
}

/// One frame of the camera: when it follows an entity, it is placed at that
/// entity (or left static when the entity has no transform); the freeze
/// keys place it at the player and leave it static; the follow keys make it
/// follow the player. Gives, in order, the entities whose transforms the
/// camera is placed at.
pub fn camera_controller(
    controller: &mut CameraController,
    player: &PlayerController,
    followed_exists: bool,
    player_exists: bool,
    freeze_pressed: bool,
    follow_pressed: bool,
) -> (placed: Vec<u64>)
    ensures
        final(controller).camera == old(controller).camera,
        ({
            let first: Seq<u64> = match old(controller).mode {
                CameraControllerMode::Follow(e) => if followed_exists { seq![e] } else { seq![] },
                CameraControllerMode::Static => seq![],
            };
            let second: Seq<u64> = if freeze_pressed && player_exists { seq![player.player] } else { seq![] };
            placed@ == first + second
        }),
        final(controller).mode == if follow_pressed {
            CameraControllerMode::Follow(player.player)
        } else if freeze_pressed {
            CameraControllerMode::Static
        } else {
            match old(controller).mode {
                CameraControllerMode::Follow(e) => if followed_exists { CameraControllerMode::Follow(e) } else { CameraControllerMode::Static },
                CameraControllerMode::Static => CameraControllerMode::Static,
            }
        },
{
    let mut placed: Vec<u64> = Vec::new();
    match controller.mode {
        CameraControllerMode::Follow(entity) => {
            if followed_exists {
                placed.push(entity);
            } else {
                controller.mode = CameraControllerMode::Static;
            }
        },
        CameraControllerMode::Static => {},
    }
    let ghost first = placed@;
    if freeze_pressed {
        if player_exists {
            placed.push(player.player);
        } else {
            controller.mode = CameraControllerMode::Static;
        }
        controller.mode = CameraControllerMode::Static;
    }
    if follow_pressed {
        controller.mode = CameraControllerMode::Follow(player.player);
    }
    proof {
        if !(freeze_pressed && player_exists) {
            assert(placed@ =~= first + Seq::<u64>::empty());
        }
    }
    placed
}

/// The blocks broken so far, by their kind.
pub open spec fn broken_of(broken: Map<BlockId, VecSet<BlockPos>>, id: BlockId) -> Set<BlockPos> {
    if broken.contains_key(id) {
        broken[id]@
    } else {
        Set::empty()
    }
}

/// The record of broken blocks is well formed.
pub open spec fn broken_wf(broken: VecMap<BlockId, VecSet<BlockPos>>) -> bool {
    &&& broken.wf()
    &&& forall|k: BlockId| #[trigger] broken@.contains_key(k) ==> broken@[k].wf()
}

/// Writes a held block; when the write breaks it (turns it into air), its
/// position is recorded under its previous kind. Blocks not held are left.
pub fn set_block(
    access: &mut MutableChunkAccess,
    broken: &mut VecMap<BlockId, VecSet<BlockPos>>,
    pos: BlockPos,
    id: BlockId,
)
    requires
        old(access).inv(),
        broken_wf(*old(broken)),
    ensures
        final(access).inv(),
        broken_wf(*final(broken)),
        final(access).registry_view() == old(access).registry_view(),
        final(access).section_set() == old(access).section_set(),
        final(access).lights() == old(access).lights(),
        final(access).blocks() == if old(access).blocks().contains_key(pos) {
            old(access).blocks().insert(pos, id)
        } else {
            old(access).blocks()
        },
        forall|k: BlockId| #[trigger] broken_of(final(broken)@, k) == if old(access).blocks().contains_key(pos) && id == BlockId(0) && old(access).blocks()[pos] != id && k == old(access).blocks()[pos] {
            broken_of(old(broken)@, k).insert(pos)
        } else {
            broken_of(old(broken)@, k)
        },
{
    match access.block(pos) {
        Some(prev) => {
            if id == air() && id != prev {
                let ghost b0 = broken@;
                let mut set = match broken.remove(&prev) {
                    Some(s) => s,
                    None => VecSet::new(),
                };
                set.insert(pos);
                broken.insert(prev, set);
                proof {
                    assert forall|k: BlockId| #[trigger] broken@.contains_key(k) implies broken@[k].wf() by {
                        if k != prev {
                            assert(b0.contains_key(k));
                        }
                    }
                }
            }
            access.set_block(pos, id);
        },
        None => {},
    }
}

/// The smaller of two coordinates.
pub open spec fn lo(a: i32, b: i32) -> i32 {
    if a <= b { a } else { b }
}

/// The larger of two coordinates.
pub open spec fn hi(a: i32, b: i32) -> i32 {
    if a <= b { b } else { a }
}

/// `p` lies in the box of blocks spanned by `a` and `b`.
pub open spec fn in_box(a: BlockPos, b: BlockPos, p: BlockPos) -> bool {
    &&& lo(a.x, b.x) <= p.x <= hi(a.x, b.x)
    &&& lo(a.y, b.y) <= p.y <= hi(a.y, b.y)
    &&& lo(a.z, b.z) <= p.z <= hi(a.z, b.z)
}

/// `p` lies in the box and comes before column `(x, z)`, height `y`, in the
/// order the box is filled: by `x`, then `z`, then `y`.
pub open spec fn box_before(a: BlockPos, b: BlockPos, x: int, z: int, y: int, p: BlockPos) -> bool {
    in_box(a, b, p) && (p.x < x || (p.x == x && (p.z < z || (p.z == z && p.y < y))))
}

/// The blocks after the held blocks of the positions `done` are set to `id`.
pub open spec fn blocks_set(old_blocks: Map<BlockPos, BlockId>, done: spec_fn(BlockPos) -> bool, id: BlockId) -> Map<BlockPos, BlockId> {
    Map::new(|p: BlockPos| old_blocks.contains_key(p), |p: BlockPos| if done(p) { id } else { old_blocks[p] })
}

/// The broken blocks of kind `k` after the held blocks of the positions
/// `done` are set to `id`.
pub open spec fn broken_after(
    old_broken: Map<BlockId, VecSet<BlockPos>>,
    old_blocks: Map<BlockPos, BlockId>,
    done: spec_fn(BlockPos) -> bool,
    id: BlockId,
    k: BlockId,
) -> Set<BlockPos> {
    broken_of(old_broken, k).union(
        Set::new(|p: BlockPos| done(p) && old_blocks.contains_key(p) && id == BlockId(0) && old_blocks[p] != id && old_blocks[p] == k),
    )
}

/// Sets every held block of the box spanned by `a` and `b` to `id`, by `x`,
/// then `z`, then `y`, recording the blocks it breaks.
pub fn fill_box(
    access: &mut MutableChunkAccess,
    broken: &mut VecMap<BlockId, VecSet<BlockPos>>,
    a: BlockPos,
    b: BlockPos,
    id: BlockId,
)
    requires
        old(access).inv(),
        broken_wf(*old(broken)),
        a.x < i32::MAX && a.y < i32::MAX && a.z < i32::MAX,
        b.x < i32::MAX && b.y < i32::MAX && b.z < i32::MAX,
    ensures
        final(access).inv(),
        broken_wf(*final(broken)),
        final(access).registry_view() == old(access).registry_view(),
        final(access).section_set() == old(access).section_set(),
        final(access).lights() == old(access).lights(),
        final(access).blocks() == blocks_set(old(access).blocks(), |p: BlockPos| in_box(a, b, p), id),
        forall|k: BlockId| #[trigger] broken_of(final(broken)@, k) == broken_after(old(broken)@, old(access).blocks(), |p: BlockPos| in_box(a, b, p), id, k),
{
    let ghost b0 = old(access).blocks();
    let ghost k0 = broken@;
    let xmin = if a.x <= b.x { a.x } else { b.x };
    let xmax = if a.x <= b.x { b.x } else { a.x };
    let ymin = if a.y <= b.y { a.y } else { b.y };
    let ymax = if a.y <= b.y { b.y } else { a.y };
    let zmin = if a.z <= b.z { a.z } else { b.z };
    let zmax = if a.z <= b.z { b.z } else { a.z };
    let mut x = xmin;
    proof {
        assert(blocks_set(b0, |p: BlockPos| box_before(a, b, x as int, zmin as int, ymin as int, p), id) =~= b0);
        assert forall|k: BlockId| #[trigger] broken_of(broken@, k) == broken_after(k0, b0, |p: BlockPos| box_before(a, b, x as int, zmin as int, ymin as int, p), id, k) by {
            assert(broken_after(k0, b0, |p: BlockPos| box_before(a, b, x as int, zmin as int, ymin as int, p), id, k) =~= broken_of(k0, k));
        }
    }
    while x <= xmax
        invariant
            access.inv(),
            broken_wf(*broken),
            access.registry_view() == old(access).registry_view(),
            access.section_set() == old(access).section_set(),
            access.lights() == old(access).lights(),
            xmin == lo(a.x, b.x) && xmax == hi(a.x, b.x),
            ymin == lo(a.y, b.y) && ymax == hi(a.y, b.y),
            zmin == lo(a.z, b.z) && zmax == hi(a.z, b.z),
            xmax < i32::MAX && ymax < i32::MAX && zmax < i32::MAX,
            xmin <= x <= xmax + 1,
            access.blocks() == blocks_set(b0, |p: BlockPos| box_before(a, b, x as int, zmin as int, ymin as int, p), id),
            forall|k: BlockId| #[trigger] broken_of(broken@, k) == broken_after(k0, b0, |p: BlockPos| box_before(a, b, x as int, zmin as int, ymin as int, p), id, k),
        decreases xmax + 1 - x,
    {
        let mut z = zmin;
        while z <= zmax
            invariant
                access.inv(),
                broken_wf(*broken),
                access.registry_view() == old(access).registry_view(),
                access.section_set() == old(access).section_set(),
                access.lights() == old(access).lights(),
                xmin == lo(a.x, b.x) && xmax == hi(a.x, b.x),
                ymin == lo(a.y, b.y) && ymax == hi(a.y, b.y),
                zmin == lo(a.z, b.z) && zmax == hi(a.z, b.z),
                xmax < i32::MAX && ymax < i32::MAX && zmax < i32::MAX,
                xmin <= x <= xmax,
                zmin <= z <= zmax + 1,
                access.blocks() == blocks_set(b0, |p: BlockPos| box_before(a, b, x as int, z as int, ymin as int, p), id),
                forall|k: BlockId| #[trigger] broken_of(broken@, k) == broken_after(k0, b0, |p: BlockPos| box_before(a, b, x as int, z as int, ymin as int, p), id, k),
            decreases zmax + 1 - z,
        {
            let mut y = ymin;
            while y <= ymax
                invariant
                    access.inv(),
                    broken_wf(*broken),
                    access.registry_view() == old(access).registry_view(),
                    access.section_set() == old(access).section_set(),
                    access.lights() == old(access).lights(),
                    xmin == lo(a.x, b.x) && xmax == hi(a.x, b.x),
                    ymin == lo(a.y, b.y) && ymax == hi(a.y, b.y),
                    zmin == lo(a.z, b.z) && zmax == hi(a.z, b.z),
                    xmax < i32::MAX && ymax < i32::MAX && zmax < i32::MAX,
                    xmin <= x <= xmax,
                    zmin <= z <= zmax,
                    ymin <= y <= ymax + 1,
                    access.blocks() == blocks_set(b0, |p: BlockPos| box_before(a, b, x as int, z as int, y as int, p), id),
                    forall|k: BlockId| #[trigger] broken_of(broken@, k) == broken_after(k0, b0, |p: BlockPos| box_before(a, b, x as int, z as int, y as int, p), id, k),
                decreases ymax + 1 - y,
            {
                let pos = BlockPos { x, y, z };
                let ghost before = access.blocks();
                let ghost kb = broken@;
                set_block(access, broken, pos, id);
                proof {
                    let done0 = |p: BlockPos| box_before(a, b, x as int, z as int, y as int, p);
                    let done1 = |p: BlockPos| box_before(a, b, x as int, z as int, y + 1, p);
                    assert(!done0(pos) && done1(pos));
                    assert forall|p: BlockPos| p != pos implies #[trigger] done1(p) == done0(p) by {}
                    if before.contains_key(pos) {
                        assert(before[pos] == b0[pos]);
                    }
                    assert(access.blocks() =~= blocks_set(b0, done1, id));
                    assert forall|k: BlockId| #[trigger] broken_of(broken@, k) == broken_after(k0, b0, done1, id, k) by {
                        assert(broken_of(broken@, k) =~= broken_after(k0, b0, done1, id, k));
                    }
                }
                y += 1;
            }
            proof {
                let done0 = |p: BlockPos| box_before(a, b, x as int, z as int, y as int, p);
                let done1 = |p: BlockPos| box_before(a, b, x as int, z + 1, ymin as int, p);
                assert forall|p: BlockPos| #[trigger] done1(p) == done0(p) by {}
                assert(blocks_set(b0, done1, id) =~= blocks_set(b0, done0, id));
                assert forall|k: BlockId| #[trigger] broken_of(broken@, k) == broken_after(k0, b0, done1, id, k) by {
                    assert(broken_after(k0, b0, done1, id, k) =~= broken_after(k0, b0, done0, id, k));
                }
            }
            z += 1;
        }
        proof {
            let done0 = |p: BlockPos| box_before(a, b, x as int, z as int, ymin as int, p);
            let done1 = |p: BlockPos| box_before(a, b, x + 1, zmin as int, ymin as int, p);
            assert forall|p: BlockPos| #[trigger] done1(p) == done0(p) by {}
            assert(blocks_set(b0, done1, id) =~= blocks_set(b0, done0, id));
            assert forall|k: BlockId| #[trigger] broken_of(broken@, k) == broken_after(k0, b0, done1, id, k) by {
                assert(broken_after(k0, b0, done1, id, k) =~= broken_after(k0, b0, done0, id, k));
            }
        }
        x += 1;
    }
    proof {
        let done0 = |p: BlockPos| box_before(a, b, x as int, zmin as int, ymin as int, p);
        let done1 = |p: BlockPos| in_box(a, b, p);
        assert forall|p: BlockPos| #[trigger] done1(p) == done0(p) by {}
        assert(blocks_set(b0, done1, id) =~= blocks_set(b0, done0, id));
        assert forall|k: BlockId| #[trigger] broken_of(broken@, k) == broken_after(k0, b0, done1, id, k) by {
            assert(broken_after(k0, b0, done1, id, k) =~= broken_after(k0, b0, done0, id, k));
        }
    }
}

/// The button edges, modifiers and keys of one frame: button 1 is the left
/// button, button 3 the right one.
#[derive(Copy, Clone, Debug)]
pub struct ToolInput {
    pub left_rising: bool,
    pub left_falling: bool,
    pub right_rising: bool,
    pub right_falling: bool,
    pub ctrl: bool,
    pub shift: bool,
    /// The key that switches the block to place.
    pub switch_block: bool,
}

/// What a highlighted box shows: blocks to break, or where blocks go.
#[derive(Copy, Clone, Debug, PartialEq, Eq)]
pub enum HighlightKind {
    Break,
    Place,
}

/// A box of blocks shown to the player, spanned by `a` and `b`.
#[derive(Copy, Clone, Debug, PartialEq, Eq)]
pub struct Highlight {
    pub a: BlockPos,
    pub b: BlockPos,
    pub kind: HighlightKind,
}

/// The player's terrain tool: the corner of an area being marked and the
/// button that started it, and the block to place.
#[derive(Copy, Clone, Debug)]
pub struct TerrainManipulator {
    pub start_pos: Option<BlockPos>,
    pub start_button: Option<u32>,
    pub block_name: &'static str,
}

/// A position the tool can step one block away from.
pub open spec fn tool_pos_ok(p: BlockPos) -> bool {
    &&& i32::MIN < p.x < i32::MAX - 1
    &&& i32::MIN < p.y < i32::MAX - 1
    &&& i32::MIN < p.z < i32::MAX - 1
}

/// The block next to the hit block, on the side the ray entered; the hit
/// block itself when the ray started inside it.
pub open spec fn next_to(hit: RaycastHit) -> BlockPos {
    match hit.side {
        Some(side) => BlockPos {
            x: (hit.pos.x + spec_normal(side)[0]) as i32,
            y: (hit.pos.y + spec_normal(side)[1]) as i32,
            z: (hit.pos.z + spec_normal(side)[2]) as i32,
        },
        None => hit.pos,
    }
}

/// The block next to a hit is one step from the hit block out of the side
/// the ray entered: one up from the top, one down from the bottom, one
/// further along x from the right side and one back from the left, one
/// further along z from the front and one back from the back.
pub proof fn lemma_next_to_steps(hit: RaycastHit)
    ensures
        hit.side == Some(Side::Top) ==> next_to(hit) == (BlockPos { x: hit.pos.x, y: (hit.pos.y + 1) as i32, z: hit.pos.z }),
        hit.side == Some(Side::Bottom) ==> next_to(hit) == (BlockPos { x: hit.pos.x, y: (hit.pos.y - 1) as i32, z: hit.pos.z }),
        hit.side == Some(Side::Right) ==> next_to(hit) == (BlockPos { x: (hit.pos.x + 1) as i32, y: hit.pos.y, z: hit.pos.z }),
        hit.side == Some(Side::Left) ==> next_to(hit) == (BlockPos { x: (hit.pos.x - 1) as i32, y: hit.pos.y, z: hit.pos.z }),
        hit.side == Some(Side::Front) ==> next_to(hit) == (BlockPos { x: hit.pos.x, y: hit.pos.y, z: (hit.pos.z + 1) as i32 }),
        hit.side == Some(Side::Back) ==> next_to(hit) == (BlockPos { x: hit.pos.x, y: hit.pos.y, z: (hit.pos.z - 1) as i32 }),
        hit.side is None ==> next_to(hit) == hit.pos,
{
}

fn next_to_hit(hit: &RaycastHit) -> (r: BlockPos)
    requires
        tool_pos_ok(hit.pos),
    ensures
        r == next_to(*hit),
        hit.side == Some(Side::Top) ==> r == (BlockPos { x: hit.pos.x, y: (hit.pos.y + 1) as i32, z: hit.pos.z }),
        hit.side == Some(Side::Bottom) ==> r == (BlockPos { x: hit.pos.x, y: (hit.pos.y - 1) as i32, z: hit.pos.z }),
        hit.side == Some(Side::Right) ==> r == (BlockPos { x: (hit.pos.x + 1) as i32, y: hit.pos.y, z: hit.pos.z }),
        hit.side == Some(Side::Left) ==> r == (BlockPos { x: (hit.pos.x - 1) as i32, y: hit.pos.y, z: hit.pos.z }),
        hit.side == Some(Side::Front) ==> r == (BlockPos { x: hit.pos.x, y: hit.pos.y, z: (hit.pos.z + 1) as i32 }),
        hit.side == Some(Side::Back) ==> r == (BlockPos { x: hit.pos.x, y: hit.pos.y, z: (hit.pos.z - 1) as i32 }),
        hit.side is None ==> r == hit.pos,
{
    match hit.side {
        Some(side) => {
            let n = side.normal();
            BlockPos { x: hit.pos.x + n[0], y: hit.pos.y + n[1], z: hit.pos.z + n[2] }
        },
        None => hit.pos,
    }
}

/// The held block at `p` exists and is not solid.
pub open spec fn open_at(access: MutableChunkAccess, p: BlockPos) -> bool {
    &&& access.blocks().contains_key(p)
    &&& access.registry_view().entry(access.blocks()[p].0 as int).properties.collision_type != CollisionType::Solid
}

/// The coordinate of `p` along `axis`.
pub open spec fn coord(p: BlockPos, axis: Axis) -> i32 {
    match axis {
        Axis::X => p.x,
        Axis::Y => p.y,
        Axis::Z => p.z,
    }
}

/// `p` with its coordinate along `axis` replaced by `v`.
pub open spec fn with_coord(p: BlockPos, axis: Axis, v: i32) -> BlockPos {
    match axis {
        Axis::X => BlockPos { x: v, ..p },
        Axis::Y => BlockPos { y: v, ..p },
        Axis::Z => BlockPos { z: v, ..p },
    }
}

fn get_coord(p: BlockPos, axis: Axis) -> (r: i32)
    ensures
        r == coord(p, axis),
{
    match axis {
        Axis::X => p.x,
        Axis::Y => p.y,
        Axis::Z => p.z,
    }
}

fn replace_axis(p: BlockPos, axis: Axis, v: i32) -> (r: BlockPos)
    ensures
        r == with_coord(p, axis, v),
{
    match axis {
        Axis::X => BlockPos { x: v, ..p },
        Axis::Y => BlockPos { y: v, ..p },
        Axis::Z => BlockPos { z: v, ..p },
    }
}

fn is_open(access: &MutableChunkAccess, p: BlockPos) -> (r: bool)
    requires
        access.inv(),
        ids_registered(*access),
    ensures
        r == open_at(*access, p),
{
    match access.block(p) {
        Some(id) => !access.registry().collision_type(id).is_solid(),
        None => false,
    }
}

/// Every block from `lo` to `hi` along `axis` through `from` is open.
pub open spec fn open_run(access: MutableChunkAccess, from: BlockPos, axis: Axis, lo: int, hi: int) -> bool {
    forall|n: int| lo <= n <= hi ==> #[trigger] open_at(access, with_coord(from, axis, n as i32))
}

/// How far an upward run of open blocks reaches from `from` towards `to`
/// along `axis`: the last open block before the first closed one, or `from`
/// itself when it is closed.
fn scan_up(access: &MutableChunkAccess, from: BlockPos, axis: Axis, to: i32) -> (r: i32)
    requires
        access.inv(),
        ids_registered(*access),
        coord(from, axis) <= to < i32::MAX,
    ensures
        coord(from, axis) <= r <= to,
        open_run(*access, from, axis, coord(from, axis) as int, r as int) || (r == coord(from, axis) && !open_at(*access, from)),
        r < to && open_run(*access, from, axis, coord(from, axis) as int, r as int) ==> !open_at(*access, with_coord(from, axis, (r + 1) as i32)),
{
    let start = get_coord(from, axis);
    let mut max_n = start;
    let mut n = start;
    while n <= to
        invariant
            access.inv(),
            ids_registered(*access),
            start == coord(from, axis),
            start <= max_n <= to,
            to < i32::MAX,
            start <= n <= to + 1,
            n == start || n == max_n + 1,
            n == start ==> max_n == start,
            n > start ==> open_run(*access, from, axis, start as int, max_n as int),
        ensures
            start <= max_n <= to,
            open_run(*access, from, axis, start as int, max_n as int) || (max_n == start && !open_at(*access, with_coord(from, axis, start))),
            max_n < to && open_run(*access, from, axis, start as int, max_n as int) ==> !open_at(*access, with_coord(from, axis, (max_n + 1) as i32)),
        decreases to + 1 - n,
    {
        let pos = replace_axis(from, axis, n);
        if !is_open(access, pos) {
            proof {
                if n > start {
                    assert(n == max_n + 1);
                    assert(with_coord(from, axis, (max_n + 1) as i32) == pos);
                } else {
                    assert(pos == with_coord(from, axis, start));
                    assert(with_coord(from, axis, (start as int) as i32) == pos);
                }
            }
            break;
        }
        max_n = n;
        proof {
            assert forall|m: int| start <= m <= max_n implies #[trigger] open_at(*access, with_coord(from, axis, m as i32)) by {
                if m < n {
                    assert(n > start);
                }
            }
        }
        n += 1;
    }
    proof {
        assert(with_coord(from, axis, start) == from);
    }
    max_n
}

/// How far a downward run of open blocks reaches from `from` towards `to`
/// along `axis`: the last open block before the first closed one, or `from`
/// itself when it is closed.
fn scan_down(access: &MutableChunkAccess, from: BlockPos, axis: Axis, to: i32) -> (r: i32)
    requires
        access.inv(),
        ids_registered(*access),
        i32::MIN < to <= coord(from, axis),
    ensures
        to <= r <= coord(from, axis),
        open_run(*access, from, axis, r as int, coord(from, axis) as int) || (r == coord(from, axis) && !open_at(*access, from)),
        r > to && open_run(*access, from, axis, r as int, coord(from, axis) as int) ==> !open_at(*access, with_coord(from, axis, (r - 1) as i32)),
{
    let start = get_coord(from, axis);
    let mut min_n = start;
    let mut n = start;
    while n >= to
        invariant
            access.inv(),
            ids_registered(*access),
            start == coord(from, axis),
            to <= min_n <= start,
            i32::MIN < to,
            to - 1 <= n <= start,
            n == start || n == min_n - 1,
            n == start ==> min_n == start,
            n < start ==> open_run(*access, from, axis, min_n as int, start as int),
        ensures
            to <= min_n <= start,
            open_run(*access, from, axis, min_n as int, start as int) || (min_n == start && !open_at(*access, with_coord(from, axis, start))),
            min_n > to && open_run(*access, from, axis, min_n as int, start as int) ==> !open_at(*access, with_coord(from, axis, (min_n - 1) as i32)),
        decreases n - to + 1,
    {
        let pos = replace_axis(from, axis, n);
        if !is_open(access, pos) {
            proof {
                if n < start {
                    assert(n == min_n - 1);
                    assert(with_coord(from, axis, (min_n - 1) as i32) == pos);
                } else {
                    assert(pos == with_coord(from, axis, start));
                    assert(with_coord(from, axis, (start as int) as i32) == pos);
                }
            }
            break;
        }
        min_n = n;
        proof {
            assert forall|m: int| min_n <= m <= start implies #[trigger] open_at(*access, with_coord(from, axis, m as i32)) by {
                if m > n {
                    assert(n < start);
                }
            }
        }
        n -= 1;
    }
    proof {
        assert(with_coord(from, axis, start) == from);
    }
    min_n
}

/// The blocks after writing `id` at `pos`, when it is held.
pub open spec fn set_if_held(blocks: Map<BlockPos, BlockId>, pos: BlockPos, id: BlockId) -> Map<BlockPos, BlockId> {
    if blocks.contains_key(pos) {
        blocks.insert(pos, id)
    } else {
        blocks
    }
}

/// The broken blocks of kind `k` after writing `id` at `pos`.
pub open spec fn broken_step(prev: Set<BlockPos>, blocks: Map<BlockPos, BlockId>, pos: BlockPos, id: BlockId, k: BlockId) -> Set<BlockPos> {
    if blocks.contains_key(pos) && id == BlockId(0) && blocks[pos] != id && k == blocks[pos] {
        prev.insert(pos)
    } else {
        prev
    }
}

/// What the tool keeps: the access stays well formed with the same registry,
/// sections and light, and the record of broken blocks stays well formed.
pub open spec fn tool_frame(a0: MutableChunkAccess, a1: MutableChunkAccess, k1: VecMap<BlockId, VecSet<BlockPos>>) -> bool {
    &&& a1.inv()
    &&& ids_registered(a1) <== ids_registered(a0)
    &&& broken_wf(k1)
    &&& a1.registry_view() == a0.registry_view()
    &&& a1.section_set() == a0.section_set()
    &&& a1.lights() == a0.lights()
}

/// The block kind the tool places.
pub open spec fn placed_id(a: MutableChunkAccess, name: &'static str) -> BlockId {
    a.registry_view().names()[name@]
}

/// One frame of the single-block tool: the hit block is shown to break and
/// the block next to it to place; the left button breaks the hit block and
/// the right one places a block next to it.
pub open spec fn single_done(
    input: ToolInput,
    hit: RaycastHit,
    name: &'static str,
    a0: MutableChunkAccess,
    a1: MutableChunkAccess,
    k0: Map<BlockId, VecSet<BlockPos>>,
    k1: Map<BlockId, VecSet<BlockPos>>,
    shown: Seq<Highlight>,
) -> bool {
    let b0 = a0.blocks();
    let b1 = if input.left_rising { set_if_held(b0, hit.pos, BlockId(0)) } else { b0 };
    let place = hit.side is Some && input.right_rising;
    let id = placed_id(a0, name);
    &&& shown == seq![Highlight { a: hit.pos, b: hit.pos, kind: HighlightKind::Break }] + if hit.side is Some {
        seq![Highlight { a: next_to(hit), b: next_to(hit), kind: HighlightKind::Place }]
    } else {
        Seq::empty()
    }
    &&& a1.blocks() == if place { set_if_held(b1, next_to(hit), id) } else { b1 }
    &&& forall|k: BlockId| #[trigger] broken_of(k1, k) == {
        let s1 = if input.left_rising { broken_step(broken_of(k0, k), b0, hit.pos, BlockId(0), k) } else { broken_of(k0, k) };
        if place { broken_step(s1, b1, next_to(hit), id, k) } else { s1 }
    }
}

/// Breaks or places one block.
pub fn terrain_manipulation_single(
    input: &ToolInput,
    hit: &RaycastHit,
    manip: &TerrainManipulator,
    access: &mut MutableChunkAccess,
    broken: &mut VecMap<BlockId, VecSet<BlockPos>>,
) -> (shown: Vec<Highlight>)
    requires
        old(access).inv(),
        broken_wf(*old(broken)),
        tool_pos_ok(hit.pos),
        old(access).registry_view().wf(),
        hit.side is Some && input.right_rising ==> old(access).registry_view().names().contains_key(manip.block_name@),
    ensures
        tool_frame(*old(access), *final(access), *final(broken)),
        single_done(*input, *hit, manip.block_name, *old(access), *final(access), old(broken)@, final(broken)@, shown@),
{
    let ghost a0 = *access;
    let ghost k0 = broken@;
    let mut shown: Vec<Highlight> = Vec::new();
    shown.push(Highlight { a: hit.pos, b: hit.pos, kind: HighlightKind::Break });
    if input.left_rising {
        set_block(access, broken, hit.pos, air());
    }
    let ghost a1 = *access;
    let ghost k1 = broken@;
    if let Some(side) = hit.side {
        let offset = next_to_hit(hit);
        shown.push(Highlight { a: offset, b: offset, kind: HighlightKind::Place });
        if input.right_rising {
            let id = access.registry().get_id(manip.block_name);
            set_block(access, broken, offset, id);
        }
    }
    proof {
        if hit.side is None {
            assert(shown@ =~= seq![Highlight { a: hit.pos, b: hit.pos, kind: HighlightKind::Break }] + Seq::<Highlight>::empty());
        } else {
            assert(shown@ =~= seq![Highlight { a: hit.pos, b: hit.pos, kind: HighlightKind::Break }] + seq![Highlight { a: next_to(*hit), b: next_to(*hit), kind: HighlightKind::Place }]);
        }
        assert(ids_registered(a0) ==> ids_registered(*access)) by {
            if ids_registered(a0) {
                assert forall|p: BlockPos| #[trigger] access.blocks().contains_key(p) implies access.blocks()[p].0 < access.registry_view().len() by {
                    assert(a0.blocks().contains_key(p));
                    if hit.side is Some && input.right_rising && p == next_to(*hit) {
                        assert(a0.registry_view().names().contains_key(manip.block_name@));
                        a0.registry_view().lemma_names_below();
                    }
                }
            }
        }
    }
    shown
}

/// The box an area tool frame fills, and whether it places blocks (rather
/// than breaking them): releasing the button that started the area fills
/// the box from its start to the hit block (to break) or to the block next
/// to it (to place).
pub open spec fn area_fill(m: TerrainManipulator, input: ToolInput, hit: RaycastHit) -> Option<(BlockPos, BlockPos, bool)> {
    match m.start_pos {
        Some(s) => if m.start_button == Some(1u32) && input.left_falling {
            Some((s, hit.pos, false))
        } else if m.start_button == Some(3u32) && input.right_falling {
            Some((s, next_to(hit), true))
        } else {
            None
        },
        None => None,
    }
}

/// One frame of the area tool: without a start, the hit block is shown to
/// break and the one next to it to place, and pressing a button starts an
/// area there; with a start, the area so far is shown, and releasing the
/// starting button fills it and forgets the start.
pub open spec fn area_done(
    input: ToolInput,
    hit: RaycastHit,
    m0: TerrainManipulator,
    m1: TerrainManipulator,
    a0: MutableChunkAccess,
    a1: MutableChunkAccess,
    k0: Map<BlockId, VecSet<BlockPos>>,
    k1: Map<BlockId, VecSet<BlockPos>>,
    shown: Seq<Highlight>,
) -> bool {
    &&& m1.block_name == m0.block_name
    &&& shown == match m0.start_pos {
        Some(s) => if m0.start_button == Some(1u32) {
            seq![Highlight { a: s, b: hit.pos, kind: HighlightKind::Break }]
        } else if m0.start_button == Some(3u32) {
            seq![Highlight { a: s, b: next_to(hit), kind: HighlightKind::Place }]
        } else {
            Seq::empty()
        },
        None => seq![Highlight { a: hit.pos, b: hit.pos, kind: HighlightKind::Break }] + if hit.side is Some {
            seq![Highlight { a: next_to(hit), b: next_to(hit), kind: HighlightKind::Place }]
        } else {
            Seq::empty()
        },
    }
    &&& (m1.start_pos, m1.start_button) == match m0.start_pos {
        Some(_) => if area_fill(m0, input, hit) is Some {
            (None::<BlockPos>, None::<u32>)
        } else {
            (m0.start_pos, m0.start_button)
        },
        None => if input.left_rising {
            (Some(hit.pos), Some(1u32))
        } else if input.right_rising {
            (Some(next_to(hit)), Some(3u32))
        } else {
            (m0.start_pos, m0.start_button)
        },
    }
    &&& match area_fill(m0, input, hit) {
        Some((a, b, place)) => {
            let id = if place { placed_id(a0, m0.block_name) } else { BlockId(0) };
            &&& a1.blocks() == blocks_set(a0.blocks(), |p: BlockPos| in_box(a, b, p), id)
            &&& forall|k: BlockId| #[trigger] broken_of(k1, k) == broken_after(k0, a0.blocks(), |p: BlockPos| in_box(a, b, p), id, k)
        },
        None => a1.blocks() == a0.blocks() && k1 == k0,
    }
}

/// Marks and fills areas of blocks.
pub fn terrain_manipulation_area(
    input: &ToolInput,
    hit: &RaycastHit,
    manip: &mut TerrainManipulator,
    access: &mut MutableChunkAccess,
    broken: &mut VecMap<BlockId, VecSet<BlockPos>>,
) -> (shown: Vec<Highlight>)
    requires
        old(access).inv(),
        broken_wf(*old(broken)),
        tool_pos_ok(hit.pos),
        old(access).registry_view().wf(),
        old(manip).start_pos matches Some(s) ==> tool_pos_ok(s) && old(manip).start_button is Some,
        area_fill(*old(manip), *input, *hit) matches Some((_, _, true)) ==> old(access).registry_view().names().contains_key(old(manip).block_name@),
    ensures
        tool_frame(*old(access), *final(access), *final(broken)),
        area_done(*input, *hit, *old(manip), *final(manip), *old(access), *final(access), old(broken)@, final(broken)@, shown@),
{
    let ghost a0 = *access;
    let ghost k0 = broken@;
    let mut shown: Vec<Highlight> = Vec::new();
    match manip.start_pos {
        Some(start_pos) => {
            let start_button = match manip.start_button {
                Some(b) => b,
                None => 0,
            };
            if start_button == 1 {
                shown.push(Highlight { a: start_pos, b: hit.pos, kind: HighlightKind::Break });
                if input.left_falling {
                    fill_box(access, broken, start_pos, hit.pos, air());
                    manip.start_pos = None;
                    manip.start_button = None;
                }
            }
            if start_button == 3 {
                let end_pos = next_to_hit(hit);
                shown.push(Highlight { a: start_pos, b: end_pos, kind: HighlightKind::Place });
                if input.right_falling {
                    let id = access.registry().get_id(manip.block_name);
                    fill_box(access, broken, start_pos, end_pos, id);
                    manip.start_pos = None;
                    manip.start_button = None;
                }
            }
        },
        None => {
            shown.push(Highlight { a: hit.pos, b: hit.pos, kind: HighlightKind::Break });
            if hit.side.is_some() {
                let offset = next_to_hit(hit);
                shown.push(Highlight { a: offset, b: offset, kind: HighlightKind::Place });
            }
            if input.left_rising {
                manip.start_pos = Some(hit.pos);
                manip.start_button = Some(1);
            } else if input.right_rising {
                let start_pos = next_to_hit(hit);
                manip.start_pos = Some(start_pos);
                manip.start_button = Some(3);
            }
        },
    }
    proof {
        if old(manip).start_pos is None {
            if hit.side is None {
                assert(shown@ =~= seq![Highlight { a: hit.pos, b: hit.pos, kind: HighlightKind::Break }] + Seq::<Highlight>::empty());
            } else {
                assert(shown@ =~= seq![Highlight { a: hit.pos, b: hit.pos, kind: HighlightKind::Break }] + seq![Highlight { a: next_to(*hit), b: next_to(*hit), kind: HighlightKind::Place }]);
            }
        }
        if area_fill(*old(manip), *input, *hit) matches Some((_, _, true)) {
            a0.registry_view().lemma_names_below();
        }
        assert(ids_registered(a0) ==> ids_registered(*access)) by {
            if ids_registered(a0) {
                assert forall|p: BlockPos| #[trigger] access.blocks().contains_key(p) implies access.blocks()[p].0 < access.registry_view().len() by {
                    assert(a0.blocks().contains_key(p));
                }
            }
        }
    }
    shown
}

/// `r` is where the run of open blocks from `from` along `axis` towards
/// `to` (upwards, or downwards) ends: the last open block before the first
/// closed one or `to`, or `from` itself when it is closed.
pub open spec fn run_end(a: MutableChunkAccess, from: BlockPos, axis: Axis, to: int, up: bool, r: int) -> bool {
    let f = coord(from, axis) as int;
    if up {
        &&& f <= r <= to
        &&& open_run(a, from, axis, f, r) || (r == f && !open_at(a, from))
        &&& r < to && open_run(a, from, axis, f, r) ==> !open_at(a, with_coord(from, axis, (r + 1) as i32))
    } else {
        &&& to <= r <= f
        &&& open_run(a, from, axis, r, f) || (r == f && !open_at(a, from))
        &&& r > to && open_run(a, from, axis, r, f) ==> !open_at(a, with_coord(from, axis, (r - 1) as i32))
    }
}

/// One frame of the build-towards-the-player tool: from the block next to
/// the hit one, towards the player along the axis of the hit side, the run
/// of open blocks is shown, and the right button fills it.
pub open spec fn build_done(
    input: ToolInput,
    hit: RaycastHit,
    player: BlockPos,
    name: &'static str,
    a0: MutableChunkAccess,
    a1: MutableChunkAccess,
    k0: Map<BlockId, VecSet<BlockPos>>,
    k1: Map<BlockId, VecSet<BlockPos>>,
    shown: Seq<Highlight>,
) -> bool {
    match hit.side {
        None => shown == Seq::<Highlight>::empty() && a1.blocks() == a0.blocks() && k1 == k0,
        Some(side) => {
            let from = next_to(hit);
            let axis = spec_axis(side);
            let up = spec_facing_positive(side);
            let f = coord(from, axis) as int;
            let to = coord(player, axis) as int;
            let id = placed_id(a0, name);
            if (up && f > to) || (!up && f < to) {
                shown == Seq::<Highlight>::empty() && a1.blocks() == a0.blocks() && k1 == k0
            } else {
                exists|r: int|
                    #[trigger] run_end(a0, from, axis, to, up, r) && {
                        let end = with_coord(from, axis, r as i32);
                        &&& shown == seq![Highlight { a: from, b: end, kind: HighlightKind::Place }]
                        &&& if input.right_rising {
                            &&& a1.blocks() == blocks_set(a0.blocks(), |p: BlockPos| in_box(from, end, p), id)
                            &&& forall|k: BlockId| #[trigger] broken_of(k1, k) == broken_after(k0, a0.blocks(), |p: BlockPos| in_box(from, end, p), id, k)
                        } else {
                            a1.blocks() == a0.blocks() && k1 == k0
                        }
                    }
            }
        },
    }
}

/// Builds a line of blocks from the hit block towards the player.
pub fn terrain_manipulation_build_to_me(
    input: &ToolInput,
    hit: &RaycastHit,
    player_pos: BlockPos,
    manip: &TerrainManipulator,
    access: &mut MutableChunkAccess,
    broken: &mut VecMap<BlockId, VecSet<BlockPos>>,
) -> (shown: Vec<Highlight>)
    requires
        old(access).inv(),
        ids_registered(*old(access)),
        broken_wf(*old(broken)),
        tool_pos_ok(hit.pos),
        tool_pos_ok(player_pos),
        old(access).registry_view().wf(),
        old(access).registry_view().names().contains_key(manip.block_name@),
    ensures
        tool_frame(*old(access), *final(access), *final(broken)),
        ids_registered(*final(access)),
        build_done(*input, *hit, player_pos, manip.block_name, *old(access), *final(access), old(broken)@, final(broken)@, shown@),
{
    let ghost a0 = *access;
    let ghost k0 = broken@;
    let id = access.registry().get_id(manip.block_name);
    proof {
        a0.registry_view().lemma_names_below();
    }
    let mut shown: Vec<Highlight> = Vec::new();
    if let Some(side) = hit.side {
        let from = next_to_hit(hit);
        let axis = side.axis();
        let f = get_coord(from, axis);
        let to = get_coord(player_pos, axis);
        if side.facing_positive() {
            if f <= to {
                let max_n = scan_up(access, from, axis, to);
                let end = replace_axis(from, axis, max_n);
                shown.push(Highlight { a: from, b: end, kind: HighlightKind::Place });
                if input.right_rising {
                    fill_box(access, broken, from, end, id);
                }
                proof {
                    assert(run_end(a0, from, axis, to as int, true, max_n as int));
                }
            }
        } else {
            if f >= to {
                let min_n = scan_down(access, from, axis, to);
                let end = replace_axis(from, axis, min_n);
                shown.push(Highlight { a: from, b: end, kind: HighlightKind::Place });
                if input.right_rising {
                    fill_box(access, broken, from, end, id);
                }
                proof {
                    assert(run_end(a0, from, axis, to as int, false, min_n as int));
                }
            }
        }
    }
    proof {
        assert(ids_registered(*access)) by {
            assert forall|p: BlockPos| #[trigger] access.blocks().contains_key(p) implies access.blocks()[p].0 < access.registry_view().len() by {
                assert(a0.blocks().contains_key(p));
            }
        }
    }
    shown
}

/// The block the switch key turns the tool's block into: the glowing debug
/// block and stone in turn.
pub open spec fn switched_name(name: Seq<char>) -> Seq<char> {
    if name == "debug_glow_block"@ {
        "stone"@
    } else {
        "debug_glow_block"@
    }
}

/// The tool of a frame: the area tool when an area is started or both
/// control and shift are held, else the build tool when control is held,
/// else the single-block tool.
pub open spec fn uses_area(input: ToolInput, m: TerrainManipulator) -> bool {
    m.start_pos is Some || (input.ctrl && input.shift)
}

/// The tool of the frame places a block of the tool's kind.
pub open spec fn tool_needs_name(input: ToolInput, hit: RaycastHit, m: TerrainManipulator) -> bool {
    if uses_area(input, m) {
        area_fill(m, input, hit) matches Some((_, _, true))
    } else if input.ctrl {
        true
    } else {
        hit.side is Some && input.right_rising
    }
}

/// One frame of the terrain tool: the switch key changes the block to place;
/// then, when the view ray hit a block, the tool of the frame acts on it.
pub fn terrain_manipulation(
    input: &ToolInput,
    hit: Option<RaycastHit>,
    player_pos: BlockPos,
    manip: &mut TerrainManipulator,
    access: &mut MutableChunkAccess,
    broken: &mut VecMap<BlockId, VecSet<BlockPos>>,
) -> (shown: Vec<Highlight>)
    requires
        old(access).inv(),
        ids_registered(*old(access)),
        broken_wf(*old(broken)),
        old(access).registry_view().wf(),
        tool_pos_ok(player_pos),
        old(manip).start_pos matches Some(s) ==> tool_pos_ok(s) && old(manip).start_button is Some,
        hit matches Some(h) ==> tool_pos_ok(h.pos),
        ({
            let name = if input.switch_block { switched_name(old(manip).block_name@) } else { old(manip).block_name@ };
            hit matches Some(h) && tool_needs_name(*input, h, *old(manip)) ==> old(access).registry_view().names().contains_key(name)
        }),
    ensures
        tool_frame(*old(access), *final(access), *final(broken)),
        ids_registered(*final(access)),
        final(manip).block_name@ == if input.switch_block { switched_name(old(manip).block_name@) } else { old(manip).block_name@ },
        ({
            let m = TerrainManipulator { block_name: final(manip).block_name, ..*old(manip) };
            match hit {
                None => shown@ == Seq::<Highlight>::empty() && final(access).blocks() == old(access).blocks() && final(broken)@ == old(broken)@ && *final(manip) == m,
                Some(h) => if uses_area(*input, m) {
                    area_done(*input, h, m, *final(manip), *old(access), *final(access), old(broken)@, final(broken)@, shown@)
                } else if input.ctrl {
                    *final(manip) == m && build_done(*input, h, player_pos, m.block_name, *old(access), *final(access), old(broken)@, final(broken)@, shown@)
                } else {
                    *final(manip) == m && single_done(*input, h, m.block_name, *old(access), *final(access), old(broken)@, final(broken)@, shown@)
                },
            }
        }),
{
    if input.switch_block {
        let name = manip.block_name.to_owned();
        let glow = "debug_glow_block".to_owned();
        manip.block_name = if name == glow { "stone" } else { "debug_glow_block" };
    }
    match hit {
        None => Vec::new(),
        Some(h) => {
            if manip.start_pos.is_some() || (input.ctrl && input.shift) {
                terrain_manipulation_area(input, &h, manip, access, broken)
            } else if input.ctrl {
                terrain_manipulation_build_to_me(input, &h, player_pos, manip, access, broken)
            } else {
                let shown = terrain_manipulation_single(input, &h, manip, access, broken);
                proof {
                    assert(ids_registered(*access)) by {
                        assert forall|p: BlockPos| #[trigger] access.blocks().contains_key(p) implies access.blocks()[p].0 < access.registry_view().len() by {
                            assert(old(access).blocks().contains_key(p));
                            if h.side is Some && input.right_rising && p == next_to(h) {
                                old(access).registry_view().lemma_names_below();
                            }
                        }
                    }
                }
                shown
            }
        },
    }
}

} // verus!
