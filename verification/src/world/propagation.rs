//! Spreading light through the blocks of a set of chunk sections.
//!
//! Light is removed breadth-first from the blocks whose light went down, and
//! then spread breadth-first from the blocks whose light went up, one level
//! less per step into blocks that let light through. It does not matter in
//! what order this happens: a low value set early is raised later where it
//! must be.
use super::access::MutableChunkAccess;
use super::lighting::LightValue;
use super::{fits_i32, BlockPos};
use crate::vecmap::VecSet;
use std::collections::VecDeque;
use vstd::prelude::*;

verus! {

/// The sky level (`sky`) or the block level of a light value.
pub open spec fn light_level(v: LightValue, sky: bool) -> int {
    if sky {
        (v.0 as int / 16) % 16
    } else {
        v.0 as int % 16
    }
}

/// Every held light value is a packed pair of four-bit levels.
pub open spec fn lights_valid(a: MutableChunkAccess) -> bool {
    forall|p: BlockPos| #[trigger] a.lights().contains_key(p) ==> a.lights()[p].0 < 256
}

/// Every held block is a kind of the registry.
pub open spec fn ids_registered(a: MutableChunkAccess) -> bool {
    forall|p: BlockPos| #[trigger] a.blocks().contains_key(p) ==> a.blocks()[p].0 < a.registry_view().len()
}

/// The block at `p` lets light through.
pub open spec fn transmissive(a: MutableChunkAccess, p: BlockPos) -> bool {
    a.registry_view().entry(a.blocks()[p].0 as int).properties.light_transmissible
}

/// The six unit steps, in the order +x, -x, +y, -y, +z, -z.
pub open spec fn dir_offset(k: int) -> (int, int, int) {
    if k == 0 {
        (1, 0, 0)
    } else if k == 1 {
        (-1, 0, 0)
    } else if k == 2 {
        (0, 1, 0)
    } else if k == 3 {
        (0, -1, 0)
    } else if k == 4 {
        (0, 0, 1)
    } else {
        (0, 0, -1)
    }
}

/// The step `k` from `p` stays in the coordinate range.
pub open spec fn has_nbr(p: BlockPos, k: int) -> bool {
    &&& fits_i32(p.x + dir_offset(k).0)
    &&& fits_i32(p.y + dir_offset(k).1)
    &&& fits_i32(p.z + dir_offset(k).2)
}

/// The block one step `k` away from `p`.
pub open spec fn nbr(p: BlockPos, k: int) -> BlockPos {
    BlockPos {
        x: (p.x + dir_offset(k).0) as i32,
        y: (p.y + dir_offset(k).1) as i32,
        z: (p.z + dir_offset(k).2) as i32,
    }
}

/// The light of `p` falls off by at most one level into each neighbor that
/// lets light through.
pub open spec fn settled(a: MutableChunkAccess, p: BlockPos, sky: bool) -> bool {
    forall|k: int|
        0 <= k < 6 && has_nbr(p, k) && a.lights().contains_key(#[trigger] nbr(p, k)) && transmissive(a, nbr(p, k))
            ==> light_level(a.lights()[nbr(p, k)], sky) + 1 >= light_level(a.lights()[p], sky)
}

/// The step `j` from `pos` reaches a held block, which holds at least one
/// level less than `level` if it lets light through.
pub open spec fn lit_nbr(a: MutableChunkAccess, pos: BlockPos, j: int, level: int, sky: bool) -> bool {
    &&& has_nbr(pos, j)
    &&& a.lights().contains_key(nbr(pos, j))
    &&& transmissive(a, nbr(pos, j)) ==> light_level(a.lights()[nbr(pos, j)], sky) + 1 >= level
}

/// `p` waits in the queue.
pub open spec fn queued(q: Seq<(BlockPos, u16)>, p: BlockPos) -> bool {
    exists|i: int| 0 <= i < q.len() && (#[trigger] q[i]).0 == p
}

/// Every block queued to spread light is held and holds at least the queued
/// level.
pub open spec fn lit_as_queued(a: MutableChunkAccess, q: Seq<(BlockPos, u16)>, sky: bool) -> bool {
    forall|i: int| 0 <= i < q.len() ==> a.lights().contains_key((#[trigger] q[i]).0) && light_level(a.lights()[q[i].0], sky) >= q[i].1
}

/// The light of `p` comes from a queued source of exactly that level, or
/// from a neighbor at least one level brighter.
pub open spec fn sourced(a: MutableChunkAccess, q: Seq<(BlockPos, u16)>, p: BlockPos, sky: bool) -> bool {
    ||| exists|i: int| 0 <= i < q.len() && (#[trigger] q[i]).0 == p && q[i].1 == light_level(a.lights()[p], sky)
    ||| exists|k: int| 0 <= k < 6 && has_nbr(p, k) && a.lights().contains_key(#[trigger] nbr(p, k))
        && light_level(a.lights()[nbr(p, k)], sky) >= light_level(a.lights()[p], sky) + 1
}

/// Each held block's light of one kind is at least what it was in `a0`, and
/// where it is higher it is sourced from `q`.
pub open spec fn raised_from(a0: MutableChunkAccess, a: MutableChunkAccess, q: Seq<(BlockPos, u16)>, sky: bool) -> bool {
    &&& forall|p: BlockPos| #[trigger] a.lights().contains_key(p) ==> light_level(a.lights()[p], sky) >= light_level(a0.lights()[p], sky)
    &&& forall|p: BlockPos| #[trigger] a.lights().contains_key(p) && light_level(a.lights()[p], sky) > light_level(a0.lights()[p], sky) ==> sourced(a, q, p, sky)
}

/// A held neighbor of `q` is at least one level brighter.
pub open spec fn lit_by_nbr(a: MutableChunkAccess, q: BlockPos, sky: bool) -> bool {
    exists|k: int| 0 <= k < 6 && has_nbr(q, k) && a.lights().contains_key(#[trigger] nbr(q, k))
        && light_level(a.lights()[nbr(q, k)], sky) >= light_level(a.lights()[q], sky) + 1
}

/// A removal is queued for a neighbor of `q` at a level above `q`'s.
pub open spec fn removal_next_to(a: MutableChunkAccess, rem: Seq<(BlockPos, u16)>, q: BlockPos, sky: bool) -> bool {
    exists|k: int, i: int| #![trigger rem[i], nbr(q, k)]
        0 <= k < 6 && has_nbr(q, k) && 0 <= i < rem.len() && rem[i].0 == nbr(q, k) && rem[i].1 > light_level(a.lights()[q], sky)
}

/// In `a0`, `q` is not queued for removal nor next to a removal above its
/// level, has no neighbor brighter than itself and no missing neighbor:
/// its light can only come from the block itself.
pub open spec fn self_lit_in(a0: MutableChunkAccess, rem: Seq<(BlockPos, u16)>, q: BlockPos, sky: bool) -> bool {
    &&& !queued(rem, q)
    &&& !removal_next_to(a0, rem, q, sky)
    &&& !lit_by_nbr(a0, q, sky)
    &&& !at_edge(a0, q)
}

/// Every queued removal is at least the light its block holds.
pub open spec fn removals_at_least(a: MutableChunkAccess, rem: Seq<(BlockPos, u16)>, sky: bool) -> bool {
    forall|i: int| 0 <= i < rem.len() && a.lights().contains_key((#[trigger] rem[i]).0)
        ==> rem[i].1 >= light_level(a.lights()[rem[i].0], sky)
}

/// While removing light from `a0`, the light of `q` in `a` is accounted
/// for: by a brighter neighbor, a missing neighbor, being untouched light
/// that only the block itself can give, or a pending removal next to it.
pub open spec fn removal_accounted(
    a0: MutableChunkAccess,
    a: MutableChunkAccess,
    r_init: Seq<(BlockPos, u16)>,
    rem: Seq<(BlockPos, u16)>,
    q: BlockPos,
    sky: bool,
) -> bool {
    ||| lit_by_nbr(a, q, sky)
    ||| at_edge(a, q)
    ||| (light_level(a.lights()[q], sky) == light_level(a0.lights()[q], sky) && self_lit_in(a0, r_init, q, sky))
    ||| removal_next_to(a, rem, q, sky)
}

/// After spreading, the light of `q` in `a` is accounted for: by a brighter
/// neighbor, a missing neighbor, a queued source of exactly that level, or
/// being untouched light that only the block itself can give.
pub open spec fn light_accounted(
    a0: MutableChunkAccess,
    a: MutableChunkAccess,
    rem: Seq<(BlockPos, u16)>,
    upd: Seq<(BlockPos, u16)>,
    q: BlockPos,
    sky: bool,
) -> bool {
    ||| lit_by_nbr(a, q, sky)
    ||| at_edge(a, q)
    ||| exists|i: int| 0 <= i < upd.len() && (#[trigger] upd[i]).0 == q && upd[i].1 == light_level(a.lights()[q], sky)
    ||| (light_level(a.lights()[q], sky) == light_level(a0.lights()[q], sky) && self_lit_in(a0, rem, q, sky))
}

/// `q` takes its light from what it emits by `e`, from a neighbor at least
/// one level brighter, or from beyond the held blocks.
pub open spec fn sourced_by(a: MutableChunkAccess, e: spec_fn(BlockPos) -> int, q: BlockPos, sky: bool) -> bool {
    ||| e(q) >= light_level(a.lights()[q], sky)
    ||| lit_by_nbr(a, q, sky)
    ||| at_edge(a, q)
}

/// Every held lit block is sourced.
pub open spec fn all_sourced(a: MutableChunkAccess, e: spec_fn(BlockPos) -> int, sky: bool) -> bool {
    forall|q: BlockPos| #[trigger] a.lights().contains_key(q) && light_level(a.lights()[q], sky) > 0 ==> sourced_by(a, e, q, sky)
}

/// Before spreading: every held lit block is sourced, queued for removal,
/// or next to a removal above its level; and every queued source is within
/// what its block emits.
pub open spec fn sources_before(
    a: MutableChunkAccess,
    rem: Seq<(BlockPos, u16)>,
    upd: Seq<(BlockPos, u16)>,
    e: spec_fn(BlockPos) -> int,
    sky: bool,
) -> bool {
    &&& forall|q: BlockPos| #[trigger] a.lights().contains_key(q) && light_level(a.lights()[q], sky) > 0
        ==> sourced_by(a, e, q, sky) || queued(rem, q) || removal_next_to(a, rem, q, sky)
    &&& forall|i: int| 0 <= i < upd.len() && (#[trigger] upd[i]).1 > 0 ==> upd[i].1 <= e(upd[i].0)
}

/// Accounted light is sourced light, for every emission `e` that the state
/// before was sourced by.
pub proof fn lemma_accounted_sourced(
    a0: MutableChunkAccess,
    a: MutableChunkAccess,
    rem: Seq<(BlockPos, u16)>,
    upd: Seq<(BlockPos, u16)>,
    e: spec_fn(BlockPos) -> int,
    sky: bool,
)
    requires
        a.lights().dom() == a0.lights().dom(),
        forall|q: BlockPos| #[trigger] a.lights().contains_key(q) && light_level(a.lights()[q], sky) > 0 ==> light_accounted(a0, a, rem, upd, q, sky),
        sources_before(a0, rem, upd, e, sky),
    ensures
        all_sourced(a, e, sky),
{
    assert forall|q: BlockPos| #[trigger] a.lights().contains_key(q) && light_level(a.lights()[q], sky) > 0 implies sourced_by(a, e, q, sky) by {
        if exists|i: int| 0 <= i < upd.len() && (#[trigger] upd[i]).0 == q && upd[i].1 == light_level(a.lights()[q], sky) {
            let i = choose|i: int| 0 <= i < upd.len() && (#[trigger] upd[i]).0 == q && upd[i].1 == light_level(a.lights()[q], sky);
            assert(upd[i].1 <= e(upd[i].0));
        } else if !lit_by_nbr(a, q, sky) && !at_edge(a, q) {
            assert(a0.lights().contains_key(q));
        }
    }
}

/// Lowering one block to nothing keeps the others accounted for, when a
/// removal at least its old light is queued for it.
proof fn lemma_zero_keeps_accounted(
    a0: MutableChunkAccess,
    b: MutableChunkAccess,
    a: MutableChunkAccess,
    r_init: Seq<(BlockPos, u16)>,
    rem: Seq<(BlockPos, u16)>,
    p: BlockPos,
    ip: int,
    q: BlockPos,
    sky: bool,
)
    requires
        a.lights().dom() == b.lights().dom(),
        b.lights().contains_key(p),
        forall|x: BlockPos| x != p ==> #[trigger] a.lights()[x] == b.lights()[x],
        light_level(a.lights()[p], sky) == 0,
        0 <= ip < rem.len(),
        rem[ip].0 == p,
        rem[ip].1 >= light_level(b.lights()[p], sky),
        q != p,
        a.lights().contains_key(q),
        removal_accounted(a0, b, r_init, rem, q, sky),
    ensures
        removal_accounted(a0, a, r_init, rem, q, sky),
{
    assert(a.lights()[q] == b.lights()[q]);
    if lit_by_nbr(b, q, sky) {
        let k = choose|k: int| 0 <= k < 6 && has_nbr(q, k) && b.lights().contains_key(#[trigger] nbr(q, k))
            && light_level(b.lights()[nbr(q, k)], sky) >= light_level(b.lights()[q], sky) + 1;
        if nbr(q, k) == p {
            assert(rem[ip].0 == nbr(q, k) && rem[ip].1 > light_level(a.lights()[q], sky));
            assert(removal_next_to(a, rem, q, sky));
        } else {
            assert(a.lights()[nbr(q, k)] == b.lights()[nbr(q, k)]);
            assert(lit_by_nbr(a, q, sky));
        }
    } else if at_edge(b, q) {
        let k = choose|k: int| 0 <= k < 6 && #[trigger] missing_nbr(b, q, k);
        assert(missing_nbr(a, q, k));
    } else if removal_next_to(b, rem, q, sky) {
        let (k, i) = choose|k: int, i: int| #![trigger rem[i], nbr(q, k)]
            0 <= k < 6 && has_nbr(q, k) && 0 <= i < rem.len() && rem[i].0 == nbr(q, k) && rem[i].1 > light_level(b.lights()[q], sky);
        assert(removal_next_to(a, rem, q, sky));
    }
}

/// A longer removal queue keeps every block accounted for.
proof fn lemma_push_keeps_accounted(
    a0: MutableChunkAccess,
    a: MutableChunkAccess,
    r_init: Seq<(BlockPos, u16)>,
    rem: Seq<(BlockPos, u16)>,
    x: (BlockPos, u16),
    q: BlockPos,
    sky: bool,
)
    requires
        removal_accounted(a0, a, r_init, rem, q, sky),
    ensures
        removal_accounted(a0, a, r_init, rem.push(x), q, sky),
{
    if removal_next_to(a, rem, q, sky) {
        let (k, i) = choose|k: int, i: int| #![trigger rem[i], nbr(q, k)]
            0 <= k < 6 && has_nbr(q, k) && 0 <= i < rem.len() && rem[i].0 == nbr(q, k) && rem[i].1 > light_level(a.lights()[q], sky);
        assert(rem.push(x)[i] == rem[i]);
        assert(removal_next_to(a, rem.push(x), q, sky));
    }
}

/// Taking the first removal off the queue leaves each block accounted for,
/// or next to the removed entry below its level.
proof fn lemma_pop_keeps_accounted(
    a0: MutableChunkAccess,
    a: MutableChunkAccess,
    r_init: Seq<(BlockPos, u16)>,
    rem: Seq<(BlockPos, u16)>,
    q: BlockPos,
    sky: bool,
)
    requires
        rem.len() > 0,
        removal_accounted(a0, a, r_init, rem, q, sky),
    ensures
        removal_accounted(a0, a, r_init, rem.drop_first(), q, sky)
            || exists|j: int| 0 <= j < 6 && has_nbr(rem[0].0, j) && q == #[trigger] nbr(rem[0].0, j) && rem[0].1 > light_level(a.lights()[q], sky),
{
    if removal_next_to(a, rem, q, sky) && !lit_by_nbr(a, q, sky) && !at_edge(a, q) {
        let (k, i) = choose|k: int, i: int| #![trigger rem[i], nbr(q, k)]
            0 <= k < 6 && has_nbr(q, k) && 0 <= i < rem.len() && rem[i].0 == nbr(q, k) && rem[i].1 > light_level(a.lights()[q], sky);
        if i == 0 {
            lemma_nbr_opposite(q, k);
            assert(q == nbr(rem[0].0, opposite(k)));
        } else {
            assert(rem.drop_first()[i - 1] == rem[i]);
            assert(removal_next_to(a, rem.drop_first(), q, sky));
        }
    }
}

/// Raising one block keeps every other block's light sourced.
proof fn lemma_raise_keeps_sourced(a0: MutableChunkAccess, b: MutableChunkAccess, a: MutableChunkAccess, q: Seq<(BlockPos, u16)>, x: BlockPos, sky: bool)
    requires
        a.lights().dom() == b.lights().dom(),
        b.lights().contains_key(x),
        forall|p: BlockPos| p != x ==> #[trigger] a.lights()[p] == b.lights()[p],
        light_level(a.lights()[x], sky) >= light_level(b.lights()[x], sky),
        raised_from(a0, b, q, sky),
        light_level(a.lights()[x], sky) > light_level(a0.lights()[x], sky) ==> sourced(a, q, x, sky),
    ensures
        raised_from(a0, a, q, sky),
        forall|p: BlockPos| #[trigger] a.lights().contains_key(p) ==> light_level(a.lights()[p], sky) >= light_level(b.lights()[p], sky),
{
    assert forall|p: BlockPos| #[trigger] a.lights().contains_key(p) && light_level(a.lights()[p], sky) > light_level(a0.lights()[p], sky)
        implies sourced(a, q, p, sky) by {
        if p != x {
            assert(b.lights().contains_key(p));
            if !(exists|i: int| 0 <= i < q.len() && (#[trigger] q[i]).0 == p && q[i].1 == light_level(b.lights()[p], sky)) {
                let k = choose|k: int| 0 <= k < 6 && has_nbr(p, k) && b.lights().contains_key(#[trigger] nbr(p, k))
                    && light_level(b.lights()[nbr(p, k)], sky) >= light_level(b.lights()[p], sky) + 1;
                assert(a.lights().contains_key(nbr(p, k)));
            }
        }
    }
}

/// The weight that sums the levels of one kind of light.
pub open spec fn level_weight(sky: bool) -> spec_fn(LightValue) -> int {
    |v: LightValue| light_level(v, sky)
}

/// The neighbor one step `k` away from `pos`, when it is in the coordinate
/// range.
fn neighbor(pos: BlockPos, k: usize) -> (r: Option<BlockPos>)
    requires
        k < 6,
    ensures
        r == if has_nbr(pos, k as int) {
            Some(nbr(pos, k as int))
        } else {
            None::<BlockPos>
        },
{
    if k == 0 {
        if pos.x < i32::MAX { Some(pos.offset([1, 0, 0])) } else { None }
    } else if k == 1 {
        if pos.x > i32::MIN { Some(pos.offset([-1, 0, 0])) } else { None }
    } else if k == 2 {
        if pos.y < i32::MAX { Some(pos.offset([0, 1, 0])) } else { None }
    } else if k == 3 {
        if pos.y > i32::MIN { Some(pos.offset([0, -1, 0])) } else { None }
    } else if k == 4 {
        if pos.z < i32::MAX { Some(pos.offset([0, 0, 1])) } else { None }
    } else {
        if pos.z > i32::MIN { Some(pos.offset([0, 0, -1])) } else { None }
    }
}

/// The level of one kind of light at `pos`, when its section is held.
fn level_at(access: &MutableChunkAccess, pos: BlockPos, sky: bool) -> (r: Option<u16>)
    requires
        access.inv(),
        lights_valid(*access),
    ensures
        r == if access.lights().contains_key(pos) {
            Some(light_level(access.lights()[pos], sky) as u16)
        } else {
            None::<u16>
        },
{
    match access.light(pos) {
        Some(light) => {
            if sky {
                Some(light.sky())
            } else {
                Some(light.block())
            }
        },
        None => None,
    }
}

/// Sets the level of one kind of light at a held `pos`.
fn set_level(access: &mut MutableChunkAccess, pos: BlockPos, level: u16, sky: bool)
    requires
        old(access).inv(),
        lights_valid(*old(access)),
        old(access).lights().contains_key(pos),
        level <= 15,
    ensures
        final(access).inv(),
        lights_valid(*final(access)),
        final(access).registry_view() == old(access).registry_view(),
        final(access).section_set() == old(access).section_set(),
        final(access).cell_count() == old(access).cell_count(),
        final(access).blocks() == old(access).blocks(),
        final(access).lights().dom() == old(access).lights().dom(),
        forall|p: BlockPos| p != pos ==> #[trigger] final(access).lights()[p] == old(access).lights()[p],
        light_level(final(access).lights()[pos], sky) == level,
        light_level(final(access).lights()[pos], !sky) == light_level(old(access).lights()[pos], !sky),
        forall|w: spec_fn(LightValue) -> int| #[trigger] final(access).light_weight(w) == old(access).light_weight(w) - w(old(access).lights()[pos]) + w(final(access).lights()[pos]),
        old(access).rebuild_set().subset_of(final(access).rebuild_set()),
        final(access).lights()[pos] != old(access).lights()[pos] ==> final(access).rebuild_set().contains(super::section_of(pos)),
{
    let ghost prev = access.lights()[pos];
    if sky {
        let _ = access.set_sky_light(pos, level);
    } else {
        let _ = access.set_block_light(pos, level);
    }
    proof {
        assert(prev.0 < 256);
        assert(access.lights().dom() =~= old(access).lights().dom());
        assert forall|p: BlockPos| #[trigger] access.lights().contains_key(p) implies access.lights()[p].0 < 256 by {
            if p != pos {
                assert(old(access).lights().contains_key(p));
            }
        }
    }
}

/// The light of the section of `q` changed and is marked to be rebuilt.
pub open spec fn marked(a: MutableChunkAccess, q: BlockPos) -> bool {
    a.rebuild_set().contains(super::section_of(q))
}

/// `q` is not held, or one of its neighbors is not held or lies outside the
/// coordinates.
pub open spec fn at_edge(a: MutableChunkAccess, q: BlockPos) -> bool {
    ||| !a.lights().contains_key(q)
    ||| exists|k: int| 0 <= k < 6 && #[trigger] missing_nbr(a, q, k)
}

/// The step `k` from `q` leaves the coordinates or reaches a block that is
/// not held.
pub open spec fn missing_nbr(a: MutableChunkAccess, q: BlockPos, k: int) -> bool {
    !has_nbr(q, k) || !a.lights().contains_key(nbr(q, k))
}

/// Where spreading from the queues can get to: a queued block, a block of a
/// section marked for rebuilding, or a neighbor of a block queued for
/// removal or of a marked section.
pub open spec fn reached(a: MutableChunkAccess, removal: Seq<(BlockPos, u16)>, update: Seq<(BlockPos, u16)>, q: BlockPos) -> bool {
    ||| queued(removal, q)
    ||| queued(update, q)
    ||| marked(a, q)
    ||| exists|k: int| 0 <= k < 6 && has_nbr(q, k) && (queued(removal, #[trigger] nbr(q, k)) || marked(a, nbr(q, k)))
}

/// A block with a missing neighbor is at the edge.
proof fn lemma_edge_witness(a: MutableChunkAccess, q: BlockPos, k: int)
    requires
        0 <= k < 6,
        !has_nbr(q, k) || !a.lights().contains_key(nbr(q, k)),
    ensures
        at_edge(a, q),
{
    assert(missing_nbr(a, q, k));
}

/// What is reached stays reached as more sections are marked.
proof fn lemma_reached_grows(a: MutableChunkAccess, b: MutableChunkAccess, removal: Seq<(BlockPos, u16)>, update: Seq<(BlockPos, u16)>, q: BlockPos)
    requires
        a.rebuild_set().subset_of(b.rebuild_set()),
        reached(a, removal, update, q),
    ensures
        reached(b, removal, update, q),
{
    if !queued(removal, q) && !queued(update, q) && !marked(a, q) {
        let k = choose|k: int| 0 <= k < 6 && has_nbr(q, k) && (queued(removal, #[trigger] nbr(q, k)) || marked(a, nbr(q, k)));
        assert(queued(removal, nbr(q, k)) || marked(b, nbr(q, k)));
    }
}

/// Spreads one kind of light from the queued blocks, raising each block that
/// lets light through to one level below its brightest neighbor. Gives
/// `false`, and leaves the work unfinished, when the light reaches a block
/// whose section is not held.
#[verifier::rlimit(80)]
fn propagate_updates(queue: &mut VecDeque<(BlockPos, u16)>, access: &mut MutableChunkAccess, sky: bool) -> (ok: bool)
    requires
        old(access).inv(),
        lights_valid(*old(access)),
        ids_registered(*old(access)),
        forall|i: int| 0 <= i < old(queue)@.len() ==> (#[trigger] old(queue)@[i]).1 <= 15,
        forall|p: BlockPos| #[trigger] old(access).lights().contains_key(p) ==> settled(*old(access), p, sky) || queued(old(queue)@, p),
    ensures
        final(access).inv(),
        lights_valid(*final(access)),
        ids_registered(*final(access)),
        final(access).registry_view() == old(access).registry_view(),
        final(access).section_set() == old(access).section_set(),
        final(access).blocks() == old(access).blocks(),
        final(access).lights().dom() == old(access).lights().dom(),
        forall|p: BlockPos| #[trigger] final(access).lights().contains_key(p) ==> light_level(final(access).lights()[p], !sky) == light_level(old(access).lights()[p], !sky),
        old(access).rebuild_set().subset_of(final(access).rebuild_set()),
        forall|p: BlockPos| #[trigger] final(access).lights().contains_key(p) && final(access).lights()[p] != old(access).lights()[p] ==> final(access).rebuild_set().contains(super::section_of(p)),
        ok ==> final(queue)@.len() == 0,
        ok ==> forall|p: BlockPos| #[trigger] final(access).lights().contains_key(p) ==> settled(*final(access), p, sky),
        !ok ==> exists|q: BlockPos| (queued(old(queue)@, q) || marked(*final(access), q)) && at_edge(*final(access), q),
        raised_from(*old(access), *final(access), old(queue)@, sky),
        ok ==> lit_as_queued(*final(access), old(queue)@, sky),
{
    let ghost a0 = *access;
    let ghost q_init = queue@;
    let ghost lw = level_weight(sky);
    let ghost mut c: int = 0;
    proof {
        access.lemma_light_weight_bounds(lw, 0, 15);
    }
    while queue.len() > 0
        invariant
            access.inv(),
            lights_valid(*access),
            ids_registered(*access),
            lw == level_weight(sky),
            a0 == *old(access),
            access.registry_view() == a0.registry_view(),
            access.section_set() == a0.section_set(),
            access.cell_count() == a0.cell_count(),
            access.blocks() == a0.blocks(),
            access.lights().dom() == a0.lights().dom(),
            forall|p: BlockPos| #[trigger] access.lights().contains_key(p) ==> light_level(access.lights()[p], !sky) == light_level(a0.lights()[p], !sky),
            a0.rebuild_set().subset_of(access.rebuild_set()),
            forall|p: BlockPos| #[trigger] access.lights().contains_key(p) && access.lights()[p] != a0.lights()[p] ==> access.rebuild_set().contains(super::section_of(p)),
            forall|i: int| 0 <= i < queue@.len() ==> (#[trigger] queue@[i]).1 <= 15,
            forall|p: BlockPos| #[trigger] access.lights().contains_key(p) ==> settled(*access, p, sky) || queued(queue@, p),
            0 <= access.light_weight(lw) <= 15 * access.cell_count(),
            q_init == old(queue)@,
            forall|i: int| 0 <= i < queue@.len() ==> queued(q_init, (#[trigger] queue@[i]).0) || marked(*access, queue@[i].0),
            0 <= c,
            c <= q_init.len() ==> q_init.len() - c <= queue@.len(),
            forall|i: int| c <= i < q_init.len() ==> queue@[i - c] == #[trigger] q_init[i],
            forall|j: int| 0 <= j < queue@.len() && c + j >= q_init.len() ==> access.lights().contains_key((#[trigger] queue@[j]).0)
                && queue@[j].1 <= light_level(access.lights()[queue@[j].0], sky),
            forall|i: int| 0 <= i < c && i < q_init.len() ==> access.lights().contains_key((#[trigger] q_init[i]).0)
                && light_level(access.lights()[q_init[i].0], sky) >= q_init[i].1,
            raised_from(a0, *access, q_init, sky),
        decreases 7 * (15 * access.cell_count() - access.light_weight(lw)) + queue@.len(),
    {
        let ghost m0 = 7 * (15 * access.cell_count() - access.light_weight(lw)) + queue@.len();
        let ghost q0 = queue@;
        let (pos, queue_light) = queue.pop_front().unwrap();
        proof {
            assert(queue@ == q0.drop_first());
            assert forall|p: BlockPos| #[trigger] access.lights().contains_key(p) && p != pos implies settled(*access, p, sky) || queued(queue@, p) by {
                if !settled(*access, p, sky) {
                    let i = choose|i: int| 0 <= i < q0.len() && (#[trigger] q0[i]).0 == p;
                    assert(i != 0);
                    assert(queue@[i - 1] == q0[i]);
                }
            }
            assert(q0[0].1 <= 15);
            assert(queued(q_init, q0[0].0) || marked(*access, q0[0].0));
            assert forall|i: int| 0 <= i < queue@.len() implies queued(q_init, (#[trigger] queue@[i]).0) || marked(*access, queue@[i].0) by {
                assert(queue@[i] == q0[i + 1]);
            }
        }
        let ghost base = queued(q_init, pos) || marked(*access, pos);
        let ghost before_set = *access;
        let current_light = match level_at(access, pos, sky) {
            Some(l) => l,
            None => {
                proof {
                    assert(at_edge(*access, pos));
                }
                return false;
            },
        };
        let queue_light = if queue_light >= current_light {
            queue_light
        } else {
            current_light
        };
        if queue_light != current_light {
            let ghost b = *access;
            set_level(access, pos, queue_light, sky);
            proof {
                assert(sourced(*access, q_init, pos, sky)) by {
                    if c < q_init.len() {
                        assert(q0[0] == q_init[c]);
                        assert(q_init[c].0 == pos && q_init[c].1 == light_level(access.lights()[pos], sky));
                    } else {
                        assert(q0[0].1 <= light_level(b.lights()[q0[0].0], sky));
                    }
                }
                lemma_raise_keeps_sourced(a0, b, *access, q_init, pos, sky);
                assert forall|i: int| 0 <= i < queue@.len() implies queued(q_init, (#[trigger] queue@[i]).0) || marked(*access, queue@[i].0) by {
                    if marked(b, queue@[i].0) {
                    }
                }
                assert forall|p: BlockPos| #[trigger] access.lights().contains_key(p) && p != pos implies settled(*access, p, sky) || queued(queue@, p) by {
                    if settled(b, p, sky) {
                        assert forall|k: int| 0 <= k < 6 && has_nbr(p, k) && access.lights().contains_key(#[trigger] nbr(p, k)) && transmissive(*access, nbr(p, k))
                            implies light_level(access.lights()[nbr(p, k)], sky) + 1 >= light_level(access.lights()[p], sky) by {
                            assert(b.lights().contains_key(nbr(p, k)));
                        }
                    }
                }
            }
        }
        proof {
            access.lemma_light_weight_bounds(lw, 0, 15);
            assert(7 * (15 * access.cell_count() - access.light_weight(lw)) + queue@.len() <= m0 - 1);
            assert(forall|p: BlockPos| #[trigger] access.lights().contains_key(p) ==> light_level(access.lights()[p], sky) >= light_level(before_set.lights()[p], sky));
            assert(access.lights().contains_key(pos) && light_level(access.lights()[pos], sky) == queue_light);
            let cc = c;
            assert(cc + 1 <= q_init.len() ==> q_init.len() - (cc + 1) <= queue@.len());
            assert forall|i: int| cc + 1 <= i < q_init.len() implies queue@[i - (cc + 1)] == #[trigger] q_init[i] by {
                assert(q0[i - cc] == q_init[i]);
                assert(queue@[i - (cc + 1)] == q0[i - cc]);
            }
            assert forall|j: int| 0 <= j < queue@.len() && cc + 1 + j >= q_init.len() implies access.lights().contains_key((#[trigger] queue@[j]).0)
                && queue@[j].1 <= light_level(access.lights()[queue@[j].0], sky) by {
                assert(queue@[j] == q0[j + 1]);
                assert(before_set.lights().contains_key(q0[j + 1].0));
            }
            assert forall|i: int| 0 <= i < cc + 1 && i < q_init.len() implies access.lights().contains_key((#[trigger] q_init[i]).0)
                && light_level(access.lights()[q_init[i].0], sky) >= q_init[i].1 by {
                if i == cc {
                    assert(q0[0] == q_init[cc]);
                } else {
                    assert(before_set.lights().contains_key(q_init[i].0));
                }
            }
        }
        proof {
            c = c + 1;
        }
        if queue_light == 0 {
            proof {
                assert(settled(*access, pos, sky));
            }
            continue;
        }
        let mut k: usize = 0;
        while k < 6
            invariant
                access.inv(),
                lights_valid(*access),
                ids_registered(*access),
                lw == level_weight(sky),
                a0 == *old(access),
                access.registry_view() == a0.registry_view(),
                access.section_set() == a0.section_set(),
                access.cell_count() == a0.cell_count(),
                access.blocks() == a0.blocks(),
                access.lights().dom() == a0.lights().dom(),
                forall|p: BlockPos| #[trigger] access.lights().contains_key(p) ==> light_level(access.lights()[p], !sky) == light_level(a0.lights()[p], !sky),
                a0.rebuild_set().subset_of(access.rebuild_set()),
                forall|p: BlockPos| #[trigger] access.lights().contains_key(p) && access.lights()[p] != a0.lights()[p] ==> access.rebuild_set().contains(super::section_of(p)),
                forall|i: int| 0 <= i < queue@.len() ==> (#[trigger] queue@[i]).1 <= 15,
                forall|p: BlockPos| #[trigger] access.lights().contains_key(p) && p != pos ==> settled(*access, p, sky) || queued(queue@, p),
                0 <= access.light_weight(lw) <= 15 * access.cell_count(),
                7 * (15 * access.cell_count() - access.light_weight(lw)) + queue@.len() <= m0 - 1,
                1 <= queue_light <= 15,
                k <= 6,
                access.lights().contains_key(pos),
                light_level(access.lights()[pos], sky) == queue_light,
                forall|j: int| 0 <= j < k ==> #[trigger] lit_nbr(*access, pos, j, queue_light as int, sky),
                q_init == old(queue)@,
                forall|i: int| 0 <= i < queue@.len() ==> queued(q_init, (#[trigger] queue@[i]).0) || marked(*access, queue@[i].0),
                queued(q_init, pos) || marked(*access, pos),
                0 <= c,
                c <= q_init.len() ==> q_init.len() - c <= queue@.len(),
            forall|i: int| c <= i < q_init.len() ==> queue@[i - c] == #[trigger] q_init[i],
                forall|j: int| 0 <= j < queue@.len() && c + j >= q_init.len() ==> access.lights().contains_key((#[trigger] queue@[j]).0)
                    && queue@[j].1 <= light_level(access.lights()[queue@[j].0], sky),
                forall|i: int| 0 <= i < c && i < q_init.len() ==> access.lights().contains_key((#[trigger] q_init[i]).0)
                    && light_level(access.lights()[q_init[i].0], sky) >= q_init[i].1,
                raised_from(a0, *access, q_init, sky),
            decreases 6 - k,
        {
            let dir = match neighbor(pos, k) {
                Some(d) => d,
                None => {
                    proof {
                        lemma_edge_witness(*access, pos, k as int);
                    }
                    return false;
                },
            };
            let neighbor_light = match level_at(access, dir, sky) {
                Some(l) => l,
                None => {
                    proof {
                        lemma_edge_witness(*access, pos, k as int);
                    }
                    return false;
                },
            };
            let new_light = if queue_light - 1 >= neighbor_light {
                queue_light - 1
            } else {
                neighbor_light
            };
            let id = match access.block(dir) {
                Some(id) => id,
                None => {
                    proof {
                        access.lemma_holds(dir);
                    }
                    return false;
                },
            };
            let neighbor_transmissible = access.registry().light_transmissible(id);
            if new_light != neighbor_light && neighbor_transmissible {
                let ghost b = *access;
                let ghost qb = queue@;
                set_level(access, dir, new_light, sky);
                queue.push_back((dir, new_light));
                proof {
                    assert(queue@ == qb.push((dir, new_light)));
                    lemma_nbr_opposite(pos, k as int);
                    assert(nbr(pos, k as int) != pos);
                    assert(sourced(*access, q_init, dir, sky)) by {
                        let back = opposite(k as int);
                        assert(access.lights().contains_key(nbr(dir, back)));
                    }
                    lemma_raise_keeps_sourced(a0, b, *access, q_init, dir, sky);
                    assert forall|i: int| c <= i < q_init.len() implies queue@[i - c] == #[trigger] q_init[i] by {
                        assert(qb[i - c] == q_init[i]);
                        assert(queue@[i - c] == qb[i - c]);
                    }
                    assert forall|j: int| 0 <= j < queue@.len() && c + j >= q_init.len() implies access.lights().contains_key((#[trigger] queue@[j]).0)
                        && queue@[j].1 <= light_level(access.lights()[queue@[j].0], sky) by {
                        if j < qb.len() {
                            assert(queue@[j] == qb[j]);
                            assert(b.lights().contains_key(qb[j].0));
                        }
                    }
                    assert forall|i: int| 0 <= i < c && i < q_init.len() implies access.lights().contains_key((#[trigger] q_init[i]).0)
                        && light_level(access.lights()[q_init[i].0], sky) >= q_init[i].1 by {
                        assert(b.lights().contains_key(q_init[i].0));
                    }
                    assert(marked(*access, dir));
                    assert forall|i: int| 0 <= i < queue@.len() implies queued(q_init, (#[trigger] queue@[i]).0) || marked(*access, queue@[i].0) by {
                        if i < qb.len() {
                            assert(queue@[i] == qb[i]);
                            if marked(b, qb[i].0) {
                            }
                        }
                    }
                    if marked(b, pos) {
                    }
                    assert(queued(queue@, dir)) by {
                        assert(queue@[qb.len() as int] == (dir, new_light));
                    }
                    assert forall|i: int| 0 <= i < queue@.len() implies (#[trigger] queue@[i]).1 <= 15 by {
                        if i < qb.len() {
                            assert(queue@[i] == qb[i]);
                        }
                    }
                    assert forall|p: BlockPos| #[trigger] access.lights().contains_key(p) && p != pos implies settled(*access, p, sky) || queued(queue@, p) by {
                        if p != dir {
                            if settled(b, p, sky) {
                                assert forall|k2: int| 0 <= k2 < 6 && has_nbr(p, k2) && access.lights().contains_key(#[trigger] nbr(p, k2)) && transmissive(*access, nbr(p, k2))
                                    implies light_level(access.lights()[nbr(p, k2)], sky) + 1 >= light_level(access.lights()[p], sky) by {
                                    assert(b.lights().contains_key(nbr(p, k2)));
                                }
                            } else {
                                let i = choose|i: int| 0 <= i < qb.len() && (#[trigger] qb[i]).0 == p;
                                assert(queue@[i] == qb[i]);
                            }
                        }
                    }
                    assert(nbr(pos, k as int) != pos);
                    assert(lit_nbr(*access, pos, k as int, queue_light as int, sky));
                    assert forall|j: int| 0 <= j < k + 1 implies #[trigger] lit_nbr(*access, pos, j, queue_light as int, sky) by {
                        if j < k {
                            assert(lit_nbr(b, pos, j, queue_light as int, sky));
                            assert(nbr(pos, j) != nbr(pos, k as int));
                        }
                    }
                    access.lemma_light_weight_bounds(lw, 0, 15);
                }
            } else {
                proof {
                    assert(dir == nbr(pos, k as int));
                    assert(lit_nbr(*access, pos, k as int, queue_light as int, sky));
                    assert forall|j: int| 0 <= j < k + 1 implies #[trigger] lit_nbr(*access, pos, j, queue_light as int, sky) by {
                    }
                }
            }
            k += 1;
        }
        proof {
            assert(settled(*access, pos, sky)) by {
                assert forall|j: int| 0 <= j < 6 && has_nbr(pos, j) && access.lights().contains_key(#[trigger] nbr(pos, j)) && transmissive(*access, nbr(pos, j))
                    implies light_level(access.lights()[nbr(pos, j)], sky) + 1 >= light_level(access.lights()[pos], sky) by {
                    assert(lit_nbr(*access, pos, j, queue_light as int, sky));
                }
            }
        }
    }
    proof {
        if c < q_init.len() {
            assert(queue@[c - c] == q_init[c]);
        }
    }
    true
}


/// The step back.
pub open spec fn opposite(k: int) -> int {
    if k % 2 == 0 {
        k + 1
    } else {
        k - 1
    }
}

pub proof fn lemma_nbr_opposite(q: BlockPos, k: int)
    requires
        0 <= k < 6,
        has_nbr(q, k),
    ensures
        0 <= opposite(k) < 6,
        has_nbr(nbr(q, k), opposite(k)),
        nbr(nbr(q, k), opposite(k)) == q,
{
}

/// `p` needs no more than the work the queues hold: it is settled, or
/// waits to spread light, or a neighbor waits to lose its light.
pub open spec fn covered(a: MutableChunkAccess, p: BlockPos, sky: bool, removal: Seq<(BlockPos, u16)>, update: Seq<(BlockPos, u16)>) -> bool {
    ||| settled(a, p, sky)
    ||| queued(update, p)
    ||| exists|k: int| 0 <= k < 6 && has_nbr(p, k) && queued(removal, #[trigger] nbr(p, k))
}

proof fn lemma_queued_push(q: Seq<(BlockPos, u16)>, e: (BlockPos, u16), p: BlockPos)
    ensures
        queued(q, p) ==> queued(q.push(e), p),
        e.0 == p ==> queued(q.push(e), p),
{
    if queued(q, p) {
        let i = choose|i: int| 0 <= i < q.len() && (#[trigger] q[i]).0 == p;
        assert(q.push(e)[i] == q[i]);
    }
    assert(q.push(e)[q.len() as int] == e);
}

/// Lowering the light at `d` keeps every other block covered, given that
/// `d` then waits in the removal queue.
proof fn lemma_lowering_keeps_settled(b: MutableChunkAccess, a: MutableChunkAccess, d: BlockPos, p: BlockPos, sky: bool)
    requires
        b.lights().dom() == a.lights().dom(),
        b.blocks() == a.blocks(),
        b.registry_view() == a.registry_view(),
        forall|q: BlockPos| q != d ==> #[trigger] a.lights()[q] == b.lights()[q],
        p != d,
        settled(b, p, sky),
    ensures
        settled(a, p, sky) || exists|k: int| 0 <= k < 6 && has_nbr(p, k) && #[trigger] nbr(p, k) == d,
{
    if !settled(a, p, sky) {
        let k = choose|k: int|
            0 <= k < 6 && has_nbr(p, k) && a.lights().contains_key(#[trigger] nbr(p, k)) && transmissive(a, nbr(p, k))
                && !(light_level(a.lights()[nbr(p, k)], sky) + 1 >= light_level(a.lights()[p], sky));
        assert(b.lights().contains_key(nbr(p, k)));
        assert(nbr(p, k) == d);
    }
}

/// Takes away the light that the removal queue names: each queued block is
/// darkened, and each neighbor lit only through it is darkened in turn;
/// neighbors lit from elsewhere are queued to spread their light again.
/// Gives `false`, and leaves the work unfinished, when the removal reaches a
/// block whose section is not held.
fn propagate_removals(
    removal: &mut VecDeque<(BlockPos, u16)>,
    update: &mut VecDeque<(BlockPos, u16)>,
    access: &mut MutableChunkAccess,
    sky: bool,
) -> (ok: bool)
    requires
        old(access).inv(),
        lights_valid(*old(access)),
        ids_registered(*old(access)),
        forall|i: int| 0 <= i < old(update)@.len() ==> (#[trigger] old(update)@[i]).1 <= 15,
        forall|p: BlockPos| #[trigger] old(access).lights().contains_key(p) ==> covered(*old(access), p, sky, old(removal)@, old(update)@) || queued(old(removal)@, p),
    ensures
        final(access).inv(),
        lights_valid(*final(access)),
        ids_registered(*final(access)),
        final(access).registry_view() == old(access).registry_view(),
        final(access).section_set() == old(access).section_set(),
        final(access).blocks() == old(access).blocks(),
        final(access).lights().dom() == old(access).lights().dom(),
        forall|p: BlockPos| #[trigger] final(access).lights().contains_key(p) ==> light_level(final(access).lights()[p], !sky) == light_level(old(access).lights()[p], !sky),
        old(access).rebuild_set().subset_of(final(access).rebuild_set()),
        forall|p: BlockPos| #[trigger] final(access).lights().contains_key(p) && final(access).lights()[p] != old(access).lights()[p] ==> final(access).rebuild_set().contains(super::section_of(p)),
        forall|i: int| 0 <= i < final(update)@.len() ==> (#[trigger] final(update)@[i]).1 <= 15,
        ok ==> final(removal)@.len() == 0,
        ok ==> forall|p: BlockPos| #[trigger] final(access).lights().contains_key(p) ==> settled(*final(access), p, sky) || queued(final(update)@, p),
        forall|i: int| 0 <= i < final(update)@.len() ==> reached(*final(access), old(removal)@, old(update)@, (#[trigger] final(update)@[i]).0),
        !ok ==> exists|q: BlockPos| reached(*final(access), old(removal)@, old(update)@, q) && at_edge(*final(access), q),
        forall|p: BlockPos| #[trigger] final(access).lights().contains_key(p)
            ==> light_level(final(access).lights()[p], sky) == light_level(old(access).lights()[p], sky) || light_level(final(access).lights()[p], sky) == 0,
        old(update)@.len() <= final(update)@.len(),
        forall|j: int| 0 <= j < old(update)@.len() ==> #[trigger] final(update)@[j] == old(update)@[j],
        forall|j: int| old(update)@.len() <= j < final(update)@.len() ==> (#[trigger] final(update)@[j]).1 == 0,
        ok && removals_at_least(*old(access), old(removal)@, sky) ==> forall|q: BlockPos|
            #[trigger] final(access).lights().contains_key(q) && light_level(final(access).lights()[q], sky) > 0 ==> {
                ||| lit_by_nbr(*final(access), q, sky)
                ||| at_edge(*final(access), q)
                ||| (light_level(final(access).lights()[q], sky) == light_level(old(access).lights()[q], sky) && self_lit_in(*old(access), old(removal)@, q, sky))
            },
{
    let ghost a0 = *access;
    let ghost r_init = removal@;
    let ghost good = removals_at_least(a0, removal@, sky);
    proof {
        if good {
            assert forall|q: BlockPos| #[trigger] access.lights().contains_key(q) && light_level(access.lights()[q], sky) > 0
                implies removal_accounted(a0, *access, r_init, r_init, q, sky) || exists|j: int| 0 <= j < removal@.len() && (#[trigger] removal@[j]).0 == q by {
            }
        }
    }
    let ghost u_init = update@;
    let ghost lit = |v: LightValue| if light_level(v, sky) > 0 { 1int } else { 0int };
    let mut i: usize = 0;
    while i < removal.len()
        invariant
            access.inv(),
            lights_valid(*access),
            ids_registered(*access),
            a0 == *old(access),
            removal@ == old(removal)@,
            update@ == old(update)@,
            access.registry_view() == a0.registry_view(),
            access.section_set() == a0.section_set(),
            access.cell_count() == a0.cell_count(),
            access.blocks() == a0.blocks(),
            access.lights().dom() == a0.lights().dom(),
            forall|p: BlockPos| #[trigger] access.lights().contains_key(p) ==> light_level(access.lights()[p], !sky) == light_level(a0.lights()[p], !sky),
            a0.rebuild_set().subset_of(access.rebuild_set()),
            forall|p: BlockPos| #[trigger] access.lights().contains_key(p) && access.lights()[p] != a0.lights()[p] ==> access.rebuild_set().contains(super::section_of(p)),
            forall|j: int| 0 <= j < update@.len() ==> (#[trigger] update@[j]).1 <= 15,
            forall|p: BlockPos| #[trigger] access.lights().contains_key(p) ==> light_level(access.lights()[p], sky) == light_level(a0.lights()[p], sky) || light_level(access.lights()[p], sky) == 0,
            i <= removal@.len(),
            forall|p: BlockPos| #[trigger] access.lights().contains_key(p) ==> covered(*access, p, sky, removal@, update@)
                || exists|j: int| i <= j < removal@.len() && (#[trigger] removal@[j]).0 == p,
            r_init == old(removal)@,
            good == removals_at_least(a0, r_init, sky),
            good ==> forall|q: BlockPos| #[trigger] access.lights().contains_key(q) && light_level(access.lights()[q], sky) > 0
                ==> removal_accounted(a0, *access, r_init, r_init, q, sky) || exists|j: int| i <= j < removal@.len() && (#[trigger] removal@[j]).0 == q,
        decreases removal@.len() - i,
    {
        let (pos, _) = removal[i];
        match level_at(access, pos, sky) {
            Some(_) => {},
            None => {
                proof {
                    assert(removal@[i as int].0 == pos);
                    assert(queued(old(removal)@, pos));
                    assert(at_edge(*access, pos));
                    assert forall|j: int| 0 <= j < update@.len() implies reached(*access, old(removal)@, old(update)@, (#[trigger] update@[j]).0) by {
                        assert(queued(old(update)@, update@[j].0));
                    }
                }
                return false;
            },
        }
        let ghost b = *access;
        set_level(access, pos, 0, sky);
        proof {
            if good {
                assert forall|q: BlockPos| #[trigger] access.lights().contains_key(q) && light_level(access.lights()[q], sky) > 0
                    implies removal_accounted(a0, *access, r_init, r_init, q, sky) || exists|j: int| i + 1 <= j < removal@.len() && (#[trigger] removal@[j]).0 == q by {
                    assert(q != pos);
                    if exists|j: int| i <= j < removal@.len() && (#[trigger] removal@[j]).0 == q {
                        let j = choose|j: int| i <= j < removal@.len() && (#[trigger] removal@[j]).0 == q;
                        assert(j != i);
                    } else {
                        assert(b.lights().contains_key(q));
                        assert(r_init[i as int].0 == pos);
                        assert(a0.lights().contains_key(pos));
                        lemma_zero_keeps_accounted(a0, b, *access, r_init, r_init, pos, i as int, q, sky);
                    }
                }
            }
            assert forall|p: BlockPos| #[trigger] access.lights().contains_key(p) implies covered(*access, p, sky, removal@, update@)
                || exists|j: int| i + 1 <= j < removal@.len() && (#[trigger] removal@[j]).0 == p by {
                if p == pos {
                    assert(settled(*access, p, sky));
                } else {
                    if exists|j: int| i <= j < removal@.len() && (#[trigger] removal@[j]).0 == p {
                        let j = choose|j: int| i <= j < removal@.len() && (#[trigger] removal@[j]).0 == p;
                        assert(j != i);
                    } else if settled(b, p, sky) {
                        lemma_lowering_keeps_settled(b, *access, pos, p, sky);
                        if !settled(*access, p, sky) {
                            let k = choose|k: int| 0 <= k < 6 && has_nbr(p, k) && #[trigger] nbr(p, k) == pos;
                            assert(removal@[i as int].0 == nbr(p, k));
                        }
                    } else if queued(update@, p) {
                    } else {
                        let k = choose|k: int| 0 <= k < 6 && has_nbr(p, k) && queued(removal@, #[trigger] nbr(p, k));
                        assert(queued(removal@, nbr(p, k)));
                    }
                }
            }
        }
        i += 1;
    }
    proof {
        access.lemma_light_weight_bounds(lit, 0, 1);
        assert forall|p: BlockPos| #[trigger] access.lights().contains_key(p) implies covered(*access, p, sky, removal@, update@) by {}
        assert forall|j: int| 0 <= j < removal@.len() implies queued(r_init, (#[trigger] removal@[j]).0) || marked(*access, removal@[j].0) by {
            assert(r_init[j] == removal@[j]);
        }
        assert forall|j: int| 0 <= j < update@.len() implies reached(*access, r_init, u_init, (#[trigger] update@[j]).0) by {
            assert(u_init[j] == update@[j]);
        }
    }
    while removal.len() > 0
        invariant
            access.inv(),
            lights_valid(*access),
            ids_registered(*access),
            a0 == *old(access),
            lit == (|v: LightValue| if light_level(v, sky) > 0 { 1int } else { 0int }),
            access.registry_view() == a0.registry_view(),
            access.section_set() == a0.section_set(),
            access.cell_count() == a0.cell_count(),
            access.blocks() == a0.blocks(),
            access.lights().dom() == a0.lights().dom(),
            forall|p: BlockPos| #[trigger] access.lights().contains_key(p) ==> light_level(access.lights()[p], !sky) == light_level(a0.lights()[p], !sky),
            a0.rebuild_set().subset_of(access.rebuild_set()),
            forall|p: BlockPos| #[trigger] access.lights().contains_key(p) && access.lights()[p] != a0.lights()[p] ==> access.rebuild_set().contains(super::section_of(p)),
            forall|j: int| 0 <= j < update@.len() ==> (#[trigger] update@[j]).1 <= 15,
            forall|p: BlockPos| #[trigger] access.lights().contains_key(p) ==> light_level(access.lights()[p], sky) == light_level(a0.lights()[p], sky) || light_level(access.lights()[p], sky) == 0,
            old(update)@.len() <= update@.len(),
            forall|j: int| 0 <= j < old(update)@.len() ==> #[trigger] update@[j] == old(update)@[j],
            forall|j: int| old(update)@.len() <= j < update@.len() ==> (#[trigger] update@[j]).1 == 0,
            forall|p: BlockPos| #[trigger] access.lights().contains_key(p) ==> covered(*access, p, sky, removal@, update@),
            0 <= access.light_weight(lit) <= access.cell_count(),
            r_init == old(removal)@,
            u_init == old(update)@,
            forall|j: int| 0 <= j < removal@.len() ==> queued(r_init, (#[trigger] removal@[j]).0) || marked(*access, removal@[j].0),
            forall|j: int| 0 <= j < update@.len() ==> reached(*access, r_init, u_init, (#[trigger] update@[j]).0),
            good == removals_at_least(a0, r_init, sky),
            good ==> forall|q: BlockPos| #[trigger] access.lights().contains_key(q) && light_level(access.lights()[q], sky) > 0
                ==> removal_accounted(a0, *access, r_init, removal@, q, sky),
        decreases 7 * access.light_weight(lit) + removal@.len(),
    {
        let ghost m0 = 7 * access.light_weight(lit) + removal@.len();
        let ghost r0 = removal@;
        let (pos, light) = removal.pop_front().unwrap();
        proof {
            assert(removal@ == r0.drop_first());
            if good {
                assert forall|q: BlockPos| #[trigger] access.lights().contains_key(q) && light_level(access.lights()[q], sky) > 0
                    implies removal_accounted(a0, *access, r_init, removal@, q, sky)
                    || exists|j: int| 0 <= j < 6 && has_nbr(pos, j) && q == #[trigger] nbr(pos, j) && light > light_level(access.lights()[q], sky) by {
                    lemma_pop_keeps_accounted(a0, *access, r_init, r0, q, sky);
                }
            }
            assert(queued(r_init, r0[0].0) || marked(*access, r0[0].0));
            assert forall|j: int| 0 <= j < removal@.len() implies queued(r_init, (#[trigger] removal@[j]).0) || marked(*access, removal@[j].0) by {
                assert(removal@[j] == r0[j + 1]);
            }
            assert forall|p: BlockPos| #[trigger] access.lights().contains_key(p) implies covered(*access, p, sky, removal@, update@)
                || exists|j: int| 0 <= j < 6 && has_nbr(pos, j) && p == #[trigger] nbr(pos, j) by {
                if !settled(*access, p, sky) && !queued(update@, p) {
                    let k2 = choose|k2: int| 0 <= k2 < 6 && has_nbr(p, k2) && queued(r0, #[trigger] nbr(p, k2));
                    let i2 = choose|i2: int| 0 <= i2 < r0.len() && (#[trigger] r0[i2]).0 == nbr(p, k2);
                    if i2 == 0 {
                        lemma_nbr_opposite(p, k2);
                        assert(p == nbr(pos, opposite(k2)));
                    } else {
                        assert(removal@[i2 - 1] == r0[i2]);
                        assert(queued(removal@, nbr(p, k2)));
                    }
                }
            }
        }
        let mut k: usize = 0;
        while k < 6
            invariant
                access.inv(),
                lights_valid(*access),
                ids_registered(*access),
                a0 == *old(access),
                lit == (|v: LightValue| if light_level(v, sky) > 0 { 1int } else { 0int }),
                access.registry_view() == a0.registry_view(),
                access.section_set() == a0.section_set(),
                access.cell_count() == a0.cell_count(),
                access.blocks() == a0.blocks(),
                access.lights().dom() == a0.lights().dom(),
                forall|p: BlockPos| #[trigger] access.lights().contains_key(p) ==> light_level(access.lights()[p], !sky) == light_level(a0.lights()[p], !sky),
                a0.rebuild_set().subset_of(access.rebuild_set()),
                forall|p: BlockPos| #[trigger] access.lights().contains_key(p) && access.lights()[p] != a0.lights()[p] ==> access.rebuild_set().contains(super::section_of(p)),
                forall|j: int| 0 <= j < update@.len() ==> (#[trigger] update@[j]).1 <= 15,
                forall|p: BlockPos| #[trigger] access.lights().contains_key(p) ==> light_level(access.lights()[p], sky) == light_level(a0.lights()[p], sky) || light_level(access.lights()[p], sky) == 0,
                old(update)@.len() <= update@.len(),
                forall|j: int| 0 <= j < old(update)@.len() ==> #[trigger] update@[j] == old(update)@[j],
                forall|j: int| old(update)@.len() <= j < update@.len() ==> (#[trigger] update@[j]).1 == 0,
                k <= 6,
                forall|p: BlockPos| #[trigger] access.lights().contains_key(p) ==> covered(*access, p, sky, removal@, update@)
                    || exists|j: int| k <= j < 6 && has_nbr(pos, j) && p == #[trigger] nbr(pos, j),
                0 <= access.light_weight(lit) <= access.cell_count(),
                7 * access.light_weight(lit) + removal@.len() <= m0 - 1,
                r_init == old(removal)@,
                u_init == old(update)@,
                forall|j: int| 0 <= j < removal@.len() ==> queued(r_init, (#[trigger] removal@[j]).0) || marked(*access, removal@[j].0),
                forall|j: int| 0 <= j < update@.len() ==> reached(*access, r_init, u_init, (#[trigger] update@[j]).0),
                queued(r_init, pos) || marked(*access, pos),
                good == removals_at_least(a0, r_init, sky),
                good ==> forall|q: BlockPos| #[trigger] access.lights().contains_key(q) && light_level(access.lights()[q], sky) > 0
                    ==> removal_accounted(a0, *access, r_init, removal@, q, sky)
                    || exists|j: int| k <= j < 6 && has_nbr(pos, j) && q == #[trigger] nbr(pos, j) && light > light_level(access.lights()[q], sky),
            decreases 6 - k,
        {
            let dir = match neighbor(pos, k) {
                Some(d) => d,
                None => {
                    proof {
                        lemma_edge_witness(*access, pos, k as int);
                        assert(reached(*access, r_init, u_init, pos));
                    }
                    return false;
                },
            };
            let neighbor_light = match level_at(access, dir, sky) {
                Some(l) => l,
                None => {
                    proof {
                        lemma_edge_witness(*access, pos, k as int);
                        assert(reached(*access, r_init, u_init, pos));
                    }
                    return false;
                },
            };
            let ghost b = *access;
            let ghost rb = removal@;
            let ghost ub = update@;
            if neighbor_light > 0 && neighbor_light < light {
                set_level(access, dir, 0, sky);
                removal.push_back((dir, light - 1));
                proof {
                    if good {
                        assert(removal@ == rb.push((dir, (light - 1) as u16)));
                        assert forall|q: BlockPos| #[trigger] access.lights().contains_key(q) && light_level(access.lights()[q], sky) > 0
                            implies removal_accounted(a0, *access, r_init, removal@, q, sky)
                            || exists|j: int| k + 1 <= j < 6 && has_nbr(pos, j) && q == #[trigger] nbr(pos, j) && light > light_level(access.lights()[q], sky) by {
                            assert(q != dir);
                            assert(b.lights().contains_key(q));
                            assert(access.lights()[q] == b.lights()[q]);
                            if exists|j: int| k <= j < 6 && has_nbr(pos, j) && q == #[trigger] nbr(pos, j) && light > light_level(b.lights()[q], sky) {
                                let j = choose|j: int| k <= j < 6 && has_nbr(pos, j) && q == #[trigger] nbr(pos, j) && light > light_level(b.lights()[q], sky);
                                assert(j != k);
                            } else {
                                lemma_push_keeps_accounted(a0, b, r_init, rb, (dir, (light - 1) as u16), q, sky);
                                assert(removal@[rb.len() as int] == (dir, (light - 1) as u16));
                                lemma_zero_keeps_accounted(a0, b, *access, r_init, removal@, dir, rb.len() as int, q, sky);
                            }
                        }
                    }
                    access.lemma_light_weight_bounds(lit, 0, 1);
                    assert(marked(*access, dir));
                    assert forall|j: int| 0 <= j < removal@.len() implies queued(r_init, (#[trigger] removal@[j]).0) || marked(*access, removal@[j].0) by {
                        if j < rb.len() {
                            assert(removal@[j] == rb[j]);
                            if marked(b, rb[j].0) {
                            }
                        }
                    }
                    assert forall|j: int| 0 <= j < update@.len() implies reached(*access, r_init, u_init, (#[trigger] update@[j]).0) by {
                        lemma_reached_grows(b, *access, r_init, u_init, update@[j].0);
                    }
                    if marked(b, pos) {
                    }
                    assert forall|p: BlockPos| #[trigger] access.lights().contains_key(p) implies covered(*access, p, sky, removal@, update@)
                        || exists|j: int| k + 1 <= j < 6 && has_nbr(pos, j) && p == #[trigger] nbr(pos, j) by {
                        if p == dir {
                            assert(settled(*access, p, sky));
                        } else if exists|j: int| k <= j < 6 && has_nbr(pos, j) && p == #[trigger] nbr(pos, j) {
                            let j = choose|j: int| k <= j < 6 && has_nbr(pos, j) && p == #[trigger] nbr(pos, j);
                            assert(j != k);
                        } else {
                            assert(covered(b, p, sky, rb, ub));
                            if settled(b, p, sky) {
                                lemma_lowering_keeps_settled(b, *access, dir, p, sky);
                                if !settled(*access, p, sky) {
                                    let k2 = choose|k2: int| 0 <= k2 < 6 && has_nbr(p, k2) && #[trigger] nbr(p, k2) == dir;
                                    lemma_queued_push(rb, (dir, (light - 1) as u16), nbr(p, k2));
                                }
                            } else if queued(ub, p) {
                            } else {
                                let k2 = choose|k2: int| 0 <= k2 < 6 && has_nbr(p, k2) && queued(rb, #[trigger] nbr(p, k2));
                                lemma_queued_push(rb, (dir, (light - 1) as u16), nbr(p, k2));
                            }
                        }
                    }
                }
            } else if neighbor_light > 0 {
                update.push_back((dir, 0));
                proof {
                    if good {
                        assert forall|q: BlockPos| #[trigger] access.lights().contains_key(q) && light_level(access.lights()[q], sky) > 0
                            implies removal_accounted(a0, *access, r_init, removal@, q, sky)
                            || exists|j: int| k + 1 <= j < 6 && has_nbr(pos, j) && q == #[trigger] nbr(pos, j) && light > light_level(access.lights()[q], sky) by {
                            if exists|j: int| k <= j < 6 && has_nbr(pos, j) && q == #[trigger] nbr(pos, j) && light > light_level(access.lights()[q], sky) {
                                let j = choose|j: int| k <= j < 6 && has_nbr(pos, j) && q == #[trigger] nbr(pos, j) && light > light_level(access.lights()[q], sky);
                                assert(j != k);
                            }
                        }
                    }
                    lemma_nbr_opposite(pos, k as int);
                    let back = opposite(k as int);
                    assert(nbr(dir, back) == pos);
                    assert(reached(*access, r_init, u_init, dir));
                    assert forall|j: int| 0 <= j < update@.len() implies reached(*access, r_init, u_init, (#[trigger] update@[j]).0) by {
                        if j < ub.len() {
                            assert(update@[j] == ub[j]);
                        }
                    }
                    assert forall|j: int| 0 <= j < update@.len() implies (#[trigger] update@[j]).1 <= 15 by {
                        if j < ub.len() {
                            assert(update@[j] == ub[j]);
                        }
                    }
                    assert forall|p: BlockPos| #[trigger] access.lights().contains_key(p) implies covered(*access, p, sky, removal@, update@)
                        || exists|j: int| k + 1 <= j < 6 && has_nbr(pos, j) && p == #[trigger] nbr(pos, j) by {
                        lemma_queued_push(ub, (dir, 0u16), p);
                        if exists|j: int| k <= j < 6 && has_nbr(pos, j) && p == #[trigger] nbr(pos, j) {
                            let j = choose|j: int| k <= j < 6 && has_nbr(pos, j) && p == #[trigger] nbr(pos, j);
                            if j == k {
                                assert(p == dir);
                            }
                        }
                    }
                }
            } else {
                proof {
                    assert forall|p: BlockPos| #[trigger] access.lights().contains_key(p) implies covered(*access, p, sky, removal@, update@)
                        || exists|j: int| k + 1 <= j < 6 && has_nbr(pos, j) && p == #[trigger] nbr(pos, j) by {
                        if exists|j: int| k <= j < 6 && has_nbr(pos, j) && p == #[trigger] nbr(pos, j) {
                            let j = choose|j: int| k <= j < 6 && has_nbr(pos, j) && p == #[trigger] nbr(pos, j);
                            if j == k {
                                assert(p == dir);
                                assert(light_level(access.lights()[p], sky) == 0);
                                assert(settled(*access, p, sky));
                            }
                        }
                    }
                }
            }
            k += 1;
        }
    }
    true
}


/// The entries of `f(0)`, then `f(1)`, up to `f(n - 1)`.
pub open spec fn concat_steps(n: int, f: spec_fn(int) -> Seq<(BlockPos, u16)>) -> Seq<(BlockPos, u16)>
    decreases n,
{
    if n <= 0 {
        Seq::empty()
    } else {
        concat_steps(n - 1, f) + f(n - 1)
    }
}

/// Update `i` is the first one for its block.
pub open spec fn first_time(s: Seq<(BlockPos, u16)>, i: int) -> bool {
    forall|j: int| 0 <= j < i ==> (#[trigger] s[j]).0 != s[i].0
}

/// What a block update queues for removal of block light: the old level
/// when the block lets light through, and again when the new level is lower.
pub open spec fn block_removal_step(a: MutableChunkAccess, s: Seq<(BlockPos, u16)>, i: int) -> Seq<(BlockPos, u16)> {
    if first_time(s, i) {
        let p = s[i].0;
        let prev = light_level(a.lights()[p], false) as u16;
        (if transmissive(a, p) { seq![(p, prev)] } else { Seq::empty() }) + (if s[i].1 < prev { seq![(p, prev)] } else { Seq::empty() })
    } else {
        Seq::empty()
    }
}

/// What a block update queues for removal of sky light: the old level when
/// the block lets light through.
pub open spec fn sky_removal_step(a: MutableChunkAccess, s: Seq<(BlockPos, u16)>, i: int) -> Seq<(BlockPos, u16)> {
    if first_time(s, i) && transmissive(a, s[i].0) {
        seq![(s[i].0, light_level(a.lights()[s[i].0], true) as u16)]
    } else {
        Seq::empty()
    }
}

/// What a block update queues for spreading block light: the new level when
/// it is higher than the old one.
pub open spec fn block_update_step(a: MutableChunkAccess, s: Seq<(BlockPos, u16)>, i: int) -> Seq<(BlockPos, u16)> {
    if first_time(s, i) && s[i].1 > light_level(a.lights()[s[i].0], false) {
        seq![s[i]]
    } else {
        Seq::empty()
    }
}

/// The block at height `y` of the column `(x, z)`.
pub open spec fn column_block(x: i32, z: i32, y: int) -> BlockPos {
    BlockPos { x, y: y as i32, z }
}

/// The sky light removal that setting a column block to `light` queues.
pub open spec fn sky_column_removal_step(a: MutableChunkAccess, x: i32, z: i32, min_y: i32, light: u16, k: int) -> Seq<(BlockPos, u16)> {
    let p = column_block(x, z, min_y + k);
    let prev = light_level(a.lights()[p], true);
    if light < prev {
        seq![(p, prev as u16)]
    } else {
        Seq::empty()
    }
}

/// The sky light spreading that setting a column block to `light` queues.
pub open spec fn sky_column_update_step(a: MutableChunkAccess, x: i32, z: i32, min_y: i32, light: u16, k: int) -> Seq<(BlockPos, u16)> {
    let p = column_block(x, z, min_y + k);
    let prev = light_level(a.lights()[p], true);
    if light > prev {
        seq![(p, light)]
    } else {
        Seq::empty()
    }
}

proof fn lemma_concat_steps_next(n: int, f: spec_fn(int) -> Seq<(BlockPos, u16)>)
    requires
        n >= 0,
    ensures
        concat_steps(n + 1, f) == concat_steps(n, f) + f(n),
{
}

/// The light changes that wait to be spread, for each kind of light.
// the basic idea for this comes from the Seed of Andromeda light update code.
#[derive(Debug)]
pub struct LightUpdateQueues {
    block_removal: VecDeque<(BlockPos, u16)>,
    block_update: VecDeque<(BlockPos, u16)>,
    sky_removal: VecDeque<(BlockPos, u16)>,
    sky_update: VecDeque<(BlockPos, u16)>,
    visited: VecSet<BlockPos>,
}

impl LightUpdateQueues {
    pub closed spec fn block_removal(&self) -> Seq<(BlockPos, u16)> {
        self.block_removal@
    }

    pub closed spec fn block_update(&self) -> Seq<(BlockPos, u16)> {
        self.block_update@
    }

    pub closed spec fn sky_removal(&self) -> Seq<(BlockPos, u16)> {
        self.sky_removal@
    }

    pub closed spec fn sky_update(&self) -> Seq<(BlockPos, u16)> {
        self.sky_update@
    }

    pub closed spec fn wf(&self) -> bool {
        self.visited.wf() && self.visited@ == Set::<BlockPos>::empty()
    }

    /// Empty queues.
    pub fn new() -> (r: Self)
        ensures
            r.wf(),
            r.block_removal() == Seq::<(BlockPos, u16)>::empty(),
            r.block_update() == Seq::<(BlockPos, u16)>::empty(),
            r.sky_removal() == Seq::<(BlockPos, u16)>::empty(),
            r.sky_update() == Seq::<(BlockPos, u16)>::empty(),
    {
        LightUpdateQueues {
            block_removal: VecDeque::new(),
            block_update: VecDeque::new(),
            sky_removal: VecDeque::new(),
            sky_update: VecDeque::new(),
            visited: VecSet::new(),
        }
    }

    /// Queues the light changes of blocks that were set to a kind that emits
    /// the given block light level; only the first update of each block
    /// counts.
    pub fn queue_blocklight_updates(&mut self, access: &MutableChunkAccess, updates: &[(BlockPos, u16)])
        requires
            old(self).wf(),
            access.inv(),
            lights_valid(*access),
            ids_registered(*access),
            forall|i: int| 0 <= i < updates@.len() ==> access.lights().contains_key((#[trigger] updates@[i]).0),
        ensures
            final(self).wf(),
            final(self).block_removal() == old(self).block_removal() + concat_steps(updates@.len() as int, |i: int| block_removal_step(*access, updates@, i)),
            final(self).sky_removal() == old(self).sky_removal() + concat_steps(updates@.len() as int, |i: int| sky_removal_step(*access, updates@, i)),
            final(self).block_update() == old(self).block_update() + concat_steps(updates@.len() as int, |i: int| block_update_step(*access, updates@, i)),
            final(self).sky_update() == old(self).sky_update(),
    {
        let ghost br = |i: int| block_removal_step(*access, updates@, i);
        let ghost sr = |i: int| sky_removal_step(*access, updates@, i);
        let ghost bu = |i: int| block_update_step(*access, updates@, i);
        let mut i: usize = 0;
        while i < updates.len()
            invariant
                access.inv(),
                lights_valid(*access),
                ids_registered(*access),
                forall|i: int| 0 <= i < updates@.len() ==> access.lights().contains_key((#[trigger] updates@[i]).0),
                br == (|i: int| block_removal_step(*access, updates@, i)),
                sr == (|i: int| sky_removal_step(*access, updates@, i)),
                bu == (|i: int| block_update_step(*access, updates@, i)),
                i <= updates@.len(),
                self.visited.wf(),
                forall|p: BlockPos| #[trigger] self.visited@.contains(p) <==> exists|j: int| 0 <= j < i && (#[trigger] updates@[j]).0 == p,
                self.block_removal@ == old(self).block_removal@ + concat_steps(i as int, br),
                self.sky_removal@ == old(self).sky_removal@ + concat_steps(i as int, sr),
                self.block_update@ == old(self).block_update@ + concat_steps(i as int, bu),
                self.sky_update@ == old(self).sky_update@,
            decreases updates@.len() - i,
        {
            let (pos, new_light) = updates[i];
            let ghost br0 = self.block_removal@;
            let ghost sr0 = self.sky_removal@;
            let ghost bu0 = self.block_update@;
            proof {
                lemma_concat_steps_next(i as int, br);
                lemma_concat_steps_next(i as int, sr);
                lemma_concat_steps_next(i as int, bu);
            }
            if !self.visited.insert(pos) {
                proof {
                    let j = choose|j: int| 0 <= j < i && (#[trigger] updates@[j]).0 == pos;
                    assert(!first_time(updates@, i as int));
                    assert(br(i as int) == Seq::<(BlockPos, u16)>::empty());
                    assert(sr(i as int) == Seq::<(BlockPos, u16)>::empty());
                    assert(bu(i as int) == Seq::<(BlockPos, u16)>::empty());
                    assert(self.block_removal@ =~= old(self).block_removal@ + concat_steps(i + 1, br));
                    assert(self.sky_removal@ =~= old(self).sky_removal@ + concat_steps(i + 1, sr));
                    assert(self.block_update@ =~= old(self).block_update@ + concat_steps(i + 1, bu));
                    assert forall|p: BlockPos| #[trigger] self.visited@.contains(p) <==> exists|j: int| 0 <= j < i + 1 && (#[trigger] updates@[j]).0 == p by {
                        if p == pos {
                            assert(updates@[i as int].0 == p);
                        }
                    }
                }
                i += 1;
                continue;
            }
            proof {
                assert(first_time(updates@, i as int)) by {
                    assert forall|j: int| 0 <= j < i implies (#[trigger] updates@[j]).0 != updates@[i as int].0 by {
                        if updates@[j].0 == pos {
                            assert(old(self).visited@.contains(pos) || true);
                        }
                    }
                }
            }
            let prev_light = match access.light(pos) {
                Some(l) => l,
                None => LightValue(0),
            };
            let id = match access.block(pos) {
                Some(id) => id,
                None => super::registry::BlockId(0),
            };
            proof {
                access.lemma_same_domain();
                assert(access.blocks().contains_key(pos));
            }
            let transmissible = access.registry().light_transmissible(id);
            let prev_sky = prev_light.sky();
            if transmissible {
                self.sky_removal.push_back((pos, prev_sky));
                self.block_removal.push_back((pos, prev_light.block()));
            }
            let prev_block = prev_light.block();
            proof {
                assert(transmissible == transmissive(*access, pos));
                assert(prev_block == light_level(access.lights()[pos], false));
                assert(prev_sky == light_level(access.lights()[pos], true));
                let step = (if transmissible { seq![(pos, prev_block)] } else { Seq::empty() }) + (if new_light < prev_block { seq![(pos, prev_block)] } else { Seq::empty() });
                assert(br(i as int) == step);
            }
            if new_light < prev_block {
                self.block_removal.push_back((pos, prev_block));
            } else if new_light > prev_block {
                self.block_update.push_back((pos, new_light));
            }
            proof {
                assert(self.block_removal@ =~= old(self).block_removal@ + concat_steps(i + 1, br));
                assert(self.sky_removal@ =~= old(self).sky_removal@ + concat_steps(i + 1, sr));
                assert(self.block_update@ =~= old(self).block_update@ + concat_steps(i + 1, bu));
                assert forall|p: BlockPos| #[trigger] self.visited@.contains(p) <==> exists|j: int| 0 <= j < i + 1 && (#[trigger] updates@[j]).0 == p by {
                    if p == pos {
                        assert(updates@[i as int].0 == p);
                    }
                    if exists|j: int| 0 <= j < i + 1 && (#[trigger] updates@[j]).0 == p {
                        let j = choose|j: int| 0 <= j < i + 1 && (#[trigger] updates@[j]).0 == p;
                        if j < i {
                            assert(old(self).visited@.contains(p) || self.visited@.contains(p));
                        }
                    }
                }
            }
            i += 1;
        }
        self.visited = VecSet::new();
    }

    /// Queues the sky light changes of setting the blocks of the column
    /// `(x, z)` from height `min_y` up to, not including, `max_y` to the sky
    /// level `light`.
    pub fn queue_skylight_updates(
        &mut self,
        access: &MutableChunkAccess,
        x: i32,
        z: i32,
        min_y: i32,
        max_y: i32,
        light: u16,
    )
        requires
            access.inv(),
            lights_valid(*access),
            forall|y: int| min_y <= y < max_y ==> access.lights().contains_key(#[trigger] column_block(x, z, y)),
        ensures
            final(self).wf() == old(self).wf(),
            final(self).block_removal() == old(self).block_removal(),
            final(self).block_update() == old(self).block_update(),
            final(self).sky_removal() == old(self).sky_removal() + concat_steps(max_y - min_y, |k: int| sky_column_removal_step(*access, x, z, min_y, light, k)),
            final(self).sky_update() == old(self).sky_update() + concat_steps(max_y - min_y, |k: int| sky_column_update_step(*access, x, z, min_y, light, k)),
    {
        let ghost rs = |k: int| sky_column_removal_step(*access, x, z, min_y, light, k);
        let ghost us = |k: int| sky_column_update_step(*access, x, z, min_y, light, k);
        let mut y = min_y;
        while y < max_y
            invariant
                access.inv(),
                lights_valid(*access),
                forall|y: int| min_y <= y < max_y ==> access.lights().contains_key(#[trigger] column_block(x, z, y)),
                rs == (|k: int| sky_column_removal_step(*access, x, z, min_y, light, k)),
                us == (|k: int| sky_column_update_step(*access, x, z, min_y, light, k)),
                min_y <= y <= max_y || max_y < min_y && y == min_y,
                self.visited == old(self).visited,
                self.block_removal@ == old(self).block_removal@,
                self.block_update@ == old(self).block_update@,
                self.sky_removal@ == old(self).sky_removal@ + concat_steps(y - min_y, rs),
                self.sky_update@ == old(self).sky_update@ + concat_steps(y - min_y, us),
            decreases max_y - y,
        {
            let pos = BlockPos { x, y, z };
            proof {
                assert(pos == column_block(x, z, y as int));
                assert(access.lights().contains_key(column_block(x, z, y as int)));
                lemma_concat_steps_next(y - min_y, rs);
                lemma_concat_steps_next(y - min_y, us);
                assert(column_block(x, z, min_y + (y - min_y)) == pos);
            }
            let prev_light = match access.light(pos) {
                Some(l) => l.sky(),
                None => 0,
            };
            if light < prev_light {
                self.sky_removal.push_back((pos, prev_light));
            } else if light > prev_light {
                self.sky_update.push_back((pos, light));
            }
            proof {
                assert(self.sky_removal@ =~= old(self).sky_removal@ + concat_steps(y + 1 - min_y, rs));
                assert(self.sky_update@ =~= old(self).sky_update@ + concat_steps(y + 1 - min_y, us));
            }
            y += 1;
        }
        proof {
            if max_y < min_y {
                assert(concat_steps(max_y - min_y, rs) == Seq::<(BlockPos, u16)>::empty());
                assert(concat_steps(max_y - min_y, us) == Seq::<(BlockPos, u16)>::empty());
                assert(self.sky_removal@ =~= old(self).sky_removal@ + concat_steps(max_y - min_y, rs));
                assert(self.sky_update@ =~= old(self).sky_update@ + concat_steps(max_y - min_y, us));
            }
        }
    }
}

/// Every held block is settled for one kind of light, except those that the
/// queues name and their neighbors.
pub open spec fn ready_to_propagate(a: MutableChunkAccess, removal: Seq<(BlockPos, u16)>, update: Seq<(BlockPos, u16)>, sky: bool) -> bool {
    &&& forall|i: int| 0 <= i < update.len() ==> (#[trigger] update[i]).1 <= 15
    &&& forall|p: BlockPos| #[trigger] a.lights().contains_key(p) ==> covered(a, p, sky, removal, update) || queued(removal, p)
}

/// What propagation of one kind of light keeps: the blocks, the other kind
/// of light, and the held sections; and what it marks: every section where
/// the light changed is to be rebuilt.
pub open spec fn propagation_frame(a0: MutableChunkAccess, a1: MutableChunkAccess, sky: bool) -> bool {
    &&& a1.inv()
    &&& lights_valid(a1)
    &&& ids_registered(a1)
    &&& a1.registry_view() == a0.registry_view()
    &&& a1.section_set() == a0.section_set()
    &&& a1.blocks() == a0.blocks()
    &&& a1.lights().dom() == a0.lights().dom()
    &&& forall|p: BlockPos| #[trigger] a1.lights().contains_key(p) ==> light_level(a1.lights()[p], !sky) == light_level(a0.lights()[p], !sky)
    &&& a0.rebuild_set().subset_of(a1.rebuild_set())
    &&& forall|p: BlockPos| #[trigger] a1.lights().contains_key(p) && a1.lights()[p] != a0.lights()[p] ==> a1.rebuild_set().contains(super::section_of(p))
}

/// After lowering and then raising, a block whose light changed to a
/// nonzero level is sourced from the updates queued before the lowering.
proof fn lemma_sourced_through(
    a0: MutableChunkAccess,
    mid: MutableChunkAccess,
    a: MutableChunkAccess,
    old_u: Seq<(BlockPos, u16)>,
    mid_u: Seq<(BlockPos, u16)>,
    p: BlockPos,
    sky: bool,
)
    requires
        a.lights().contains_key(p),
        light_level(mid.lights()[p], sky) == light_level(a0.lights()[p], sky) || light_level(mid.lights()[p], sky) == 0,
        raised_from(mid, a, mid_u, sky),
        old_u.len() <= mid_u.len(),
        forall|j: int| 0 <= j < old_u.len() ==> #[trigger] mid_u[j] == old_u[j],
        forall|j: int| old_u.len() <= j < mid_u.len() ==> (#[trigger] mid_u[j]).1 == 0,
        light_level(a.lights()[p], sky) > 0,
        light_level(a.lights()[p], sky) != light_level(a0.lights()[p], sky),
    ensures
        sourced(a, old_u, p, sky),
{
    assert(light_level(a.lights()[p], sky) > light_level(mid.lights()[p], sky));
    if exists|i: int| 0 <= i < mid_u.len() && (#[trigger] mid_u[i]).0 == p && mid_u[i].1 == light_level(a.lights()[p], sky) {
        let i = choose|i: int| 0 <= i < mid_u.len() && (#[trigger] mid_u[i]).0 == p && mid_u[i].1 == light_level(a.lights()[p], sky);
        if i >= old_u.len() {
            assert(mid_u[i].1 == 0);
        }
        assert(old_u[i] == mid_u[i]);
    }
}

/// Light accounted for after removal stays accounted for after spreading.
proof fn lemma_accounted_through(
    a0: MutableChunkAccess,
    mid: MutableChunkAccess,
    a: MutableChunkAccess,
    rem: Seq<(BlockPos, u16)>,
    old_u: Seq<(BlockPos, u16)>,
    mid_u: Seq<(BlockPos, u16)>,
    q: BlockPos,
    sky: bool,
)
    requires
        a.lights().dom() == mid.lights().dom(),
        a.lights().contains_key(q),
        light_level(a.lights()[q], sky) > 0,
        raised_from(mid, a, mid_u, sky),
        light_level(mid.lights()[q], sky) > 0 ==> {
            ||| lit_by_nbr(mid, q, sky)
            ||| at_edge(mid, q)
            ||| (light_level(mid.lights()[q], sky) == light_level(a0.lights()[q], sky) && self_lit_in(a0, rem, q, sky))
        },
        old_u.len() <= mid_u.len(),
        forall|j: int| 0 <= j < old_u.len() ==> #[trigger] mid_u[j] == old_u[j],
        forall|j: int| old_u.len() <= j < mid_u.len() ==> (#[trigger] mid_u[j]).1 == 0,
    ensures
        light_accounted(a0, a, rem, old_u, q, sky),
{
    if light_level(a.lights()[q], sky) > light_level(mid.lights()[q], sky) {
        if exists|i: int| 0 <= i < mid_u.len() && (#[trigger] mid_u[i]).0 == q && mid_u[i].1 == light_level(a.lights()[q], sky) {
            let i = choose|i: int| 0 <= i < mid_u.len() && (#[trigger] mid_u[i]).0 == q && mid_u[i].1 == light_level(a.lights()[q], sky);
            if i >= old_u.len() {
                assert(mid_u[i].1 == 0);
            }
            assert(old_u[i] == mid_u[i]);
        }
    } else if lit_by_nbr(mid, q, sky) {
        let k = choose|k: int| 0 <= k < 6 && has_nbr(q, k) && mid.lights().contains_key(#[trigger] nbr(q, k))
            && light_level(mid.lights()[nbr(q, k)], sky) >= light_level(mid.lights()[q], sky) + 1;
        assert(a.lights().contains_key(nbr(q, k)));
        assert(lit_by_nbr(a, q, sky));
    } else if at_edge(mid, q) {
        let k = choose|k: int| 0 <= k < 6 && #[trigger] missing_nbr(mid, q, k);
        assert(missing_nbr(a, q, k));
    }
}

/// Spreads the queued block light changes: after it, every held block's
/// block light falls off by at most one level into each neighbor that lets
/// light through, and every block queued to spread light holds at least the
/// queued level. A block whose light changed to a nonzero level has it from
/// a queued source of that level or from a neighbor at least one level
/// brighter. When every queued removal is at least its block's light, light
/// goes away with its source: for any emission that the blocks were lit by
/// before, apart from the queued removals, every lit block is after lit by
/// what it emits, by a neighbor at least one level brighter, or from beyond
/// the held blocks. Gives `false` when the light reaches a block whose
/// section is not held; the work is then unfinished.
pub fn propagate_block_light(queues: &mut LightUpdateQueues, access: &mut MutableChunkAccess) -> (ok: bool)
    requires
        old(access).inv(),
        lights_valid(*old(access)),
        ids_registered(*old(access)),
        ready_to_propagate(*old(access), old(queues).block_removal(), old(queues).block_update(), false),
    ensures
        propagation_frame(*old(access), *final(access), false),
        final(queues).sky_removal() == old(queues).sky_removal(),
        final(queues).sky_update() == old(queues).sky_update(),
        final(queues).wf() == old(queues).wf(),
        ok ==> final(queues).block_removal().len() == 0 && final(queues).block_update().len() == 0,
        ok ==> forall|p: BlockPos| #[trigger] final(access).lights().contains_key(p) ==> settled(*final(access), p, false),
        !ok ==> exists|q: BlockPos| reached(*final(access), old(queues).block_removal(), old(queues).block_update(), q) && at_edge(*final(access), q),
        ok ==> lit_as_queued(*final(access), old(queues).block_update(), false),
        forall|p: BlockPos| #[trigger] final(access).lights().contains_key(p) && light_level(final(access).lights()[p], false) > 0
            && light_level(final(access).lights()[p], false) != light_level(old(access).lights()[p], false)
            ==> sourced(*final(access), old(queues).block_update(), p, false),
        ok && removals_at_least(*old(access), old(queues).block_removal(), false) ==> forall|q: BlockPos|
            #[trigger] final(access).lights().contains_key(q) && light_level(final(access).lights()[q], false) > 0
            ==> light_accounted(*old(access), *final(access), old(queues).block_removal(), old(queues).block_update(), q, false),
        ok && removals_at_least(*old(access), old(queues).block_removal(), false) ==> forall|e: spec_fn(BlockPos) -> int|
            #[trigger] sources_before(*old(access), old(queues).block_removal(), old(queues).block_update(), e, false)
            ==> all_sourced(*final(access), e, false),
{
    let ghost a0 = *access;
    let ghost u0 = queues.block_update@;
    let ghost r0 = queues.block_removal@;
    if !propagate_removals(&mut queues.block_removal, &mut queues.block_update, access, false) {
        return false;
    }
    let ghost mid = *access;
    let ghost middle_updates = queues.block_update@;
    let ok = propagate_updates(&mut queues.block_update, access, false);
    proof {
        if !ok {
            let q = choose|q: BlockPos| (queued(middle_updates, q) || marked(*access, q)) && at_edge(*access, q);
            if queued(middle_updates, q) {
                let i = choose|i: int| 0 <= i < middle_updates.len() && (#[trigger] middle_updates[i]).0 == q;
                lemma_reached_grows(mid, *access, old(queues).block_removal(), old(queues).block_update(), middle_updates[i].0);
            }
            assert(reached(*access, old(queues).block_removal(), old(queues).block_update(), q));
        }
        if ok {
            assert forall|i: int| 0 <= i < u0.len() implies access.lights().contains_key((#[trigger] u0[i]).0)
                && light_level(access.lights()[u0[i].0], false) >= u0[i].1 by {
                assert(middle_updates[i] == u0[i]);
            }
        }
        assert forall|p: BlockPos| #[trigger] access.lights().contains_key(p) && light_level(access.lights()[p], false) > 0
            && light_level(access.lights()[p], false) != light_level(a0.lights()[p], false)
            implies sourced(*access, u0, p, false) by {
            lemma_sourced_through(a0, mid, *access, u0, middle_updates, p, false);
        }
        if ok && removals_at_least(a0, r0, false) {
            assert forall|q: BlockPos| #[trigger] access.lights().contains_key(q) && light_level(access.lights()[q], false) > 0
                implies light_accounted(a0, *access, r0, u0, q, false) by {
                assert(mid.lights().contains_key(q));
                lemma_accounted_through(a0, mid, *access, r0, u0, middle_updates, q, false);
            }
            assert forall|e: spec_fn(BlockPos) -> int| #[trigger] sources_before(a0, r0, u0, e, false) implies all_sourced(*access, e, false) by {
                lemma_accounted_sourced(a0, *access, r0, u0, e, false);
            }
        }
    }
    ok
}

/// Spreads the queued sky light changes: after it, every held block's sky
/// light falls off by at most one level into each neighbor that lets light
/// through, and every block queued to spread light holds at least the
/// queued level. A block whose light changed to a nonzero level has it from
/// a queued source of that level or from a neighbor at least one level
/// brighter. When every queued removal is at least its block's light, light
/// goes away with its source: for any emission that the blocks were lit by
/// before, apart from the queued removals, every lit block is after lit by
/// what it emits, by a neighbor at least one level brighter, or from beyond
/// the held blocks. Gives `false` when the light reaches a block whose
/// section is not held; the work is then unfinished.
pub fn propagate_sky_light(queues: &mut LightUpdateQueues, access: &mut MutableChunkAccess) -> (ok: bool)
    requires
        old(access).inv(),
        lights_valid(*old(access)),
        ids_registered(*old(access)),
        ready_to_propagate(*old(access), old(queues).sky_removal(), old(queues).sky_update(), true),
    ensures
        propagation_frame(*old(access), *final(access), true),
        final(queues).block_removal() == old(queues).block_removal(),
        final(queues).block_update() == old(queues).block_update(),
        final(queues).wf() == old(queues).wf(),
        ok ==> final(queues).sky_removal().len() == 0 && final(queues).sky_update().len() == 0,
        ok ==> forall|p: BlockPos| #[trigger] final(access).lights().contains_key(p) ==> settled(*final(access), p, true),
        !ok ==> exists|q: BlockPos| reached(*final(access), old(queues).sky_removal(), old(queues).sky_update(), q) && at_edge(*final(access), q),
        ok ==> lit_as_queued(*final(access), old(queues).sky_update(), true),
        forall|p: BlockPos| #[trigger] final(access).lights().contains_key(p) && light_level(final(access).lights()[p], true) > 0
            && light_level(final(access).lights()[p], true) != light_level(old(access).lights()[p], true)
            ==> sourced(*final(access), old(queues).sky_update(), p, true),
        ok && removals_at_least(*old(access), old(queues).sky_removal(), true) ==> forall|q: BlockPos|
            #[trigger] final(access).lights().contains_key(q) && light_level(final(access).lights()[q], true) > 0
            ==> light_accounted(*old(access), *final(access), old(queues).sky_removal(), old(queues).sky_update(), q, true),
        ok && removals_at_least(*old(access), old(queues).sky_removal(), true) ==> forall|e: spec_fn(BlockPos) -> int|
            #[trigger] sources_before(*old(access), old(queues).sky_removal(), old(queues).sky_update(), e, true)
            ==> all_sourced(*final(access), e, true),
{
    let ghost a0 = *access;
    let ghost u0 = queues.sky_update@;
    let ghost r0 = queues.sky_removal@;
    if !propagate_removals(&mut queues.sky_removal, &mut queues.sky_update, access, true) {
        return false;
    }
    let ghost mid = *access;
    let ghost middle_updates = queues.sky_update@;
    let ok = propagate_updates(&mut queues.sky_update, access, true);
    proof {
        if !ok {
            let q = choose|q: BlockPos| (queued(middle_updates, q) || marked(*access, q)) && at_edge(*access, q);
            if queued(middle_updates, q) {
                let i = choose|i: int| 0 <= i < middle_updates.len() && (#[trigger] middle_updates[i]).0 == q;
                lemma_reached_grows(mid, *access, old(queues).sky_removal(), old(queues).sky_update(), middle_updates[i].0);
            }
            assert(reached(*access, old(queues).sky_removal(), old(queues).sky_update(), q));
        }
        if ok {
            assert forall|i: int| 0 <= i < u0.len() implies access.lights().contains_key((#[trigger] u0[i]).0)
                && light_level(access.lights()[u0[i].0], true) >= u0[i].1 by {
                assert(middle_updates[i] == u0[i]);
            }
        }
        assert forall|p: BlockPos| #[trigger] access.lights().contains_key(p) && light_level(access.lights()[p], true) > 0
            && light_level(access.lights()[p], true) != light_level(a0.lights()[p], true)
            implies sourced(*access, u0, p, true) by {
            lemma_sourced_through(a0, mid, *access, u0, middle_updates, p, true);
        }
        if ok && removals_at_least(a0, r0, true) {
            assert forall|q: BlockPos| #[trigger] access.lights().contains_key(q) && light_level(access.lights()[q], true) > 0
                implies light_accounted(a0, *access, r0, u0, q, true) by {
                assert(mid.lights().contains_key(q));
                lemma_accounted_through(a0, mid, *access, r0, u0, middle_updates, q, true);
            }
            assert forall|e: spec_fn(BlockPos) -> int| #[trigger] sources_before(a0, r0, u0, e, true) implies all_sourced(*access, e, true) by {
                lemma_accounted_sourced(a0, *access, r0, u0, e, true);
            }
        }
    }
    ok
}

} // verus!
