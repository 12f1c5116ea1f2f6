//! Applying queued block writes to the data of a chunk section.
use super::chunk::{
    flat_index, in_bounds, ArrayChunk, BlockUpdate, ChunkData, ChunkSectionIndex, ChunkSectionPos,
    ChunkSectionUpdate,
};
use super::registry::BlockId;
use super::{BlockPos, ChunkPos};
use crate::vecmap::{VecMap, VecSet};
use super::access::{local_flat, MutableChunkAccess};
use super::propagation::{block_removal_step, block_update_step, concat_steps, ids_registered, lights_valid, sky_removal_step, LightUpdateQueues};
use super::section_of;
use vstd::prelude::*;

verus! {

/// What writing blocks to the sections of a chunk produces: the sections
/// whose meshes are stale, and the blocks that changed.
pub struct ChunkUpdateContext {
    pub rebuild: VecSet<ChunkSectionPos>,
    pub block_updates: VecMap<BlockPos, BlockUpdate>,
    pub chunk: ChunkPos,
}

impl ChunkUpdateContext {
    pub open spec fn wf(&self) -> bool {
        self.rebuild.wf() && self.block_updates.wf()
    }
}

/// The blocks after the writes, one after the other.
pub open spec fn apply_updates(s: Seq<BlockId>, ups: Seq<ChunkSectionUpdate>) -> Seq<BlockId>
    decreases ups.len(),
{
    if ups.len() == 0 {
        s
    } else {
        apply_updates(s, ups.drop_last()).update(flat_index(ups.last().index), ups.last().id)
    }
}

/// Write `i` changes the block it writes.
pub open spec fn update_changes(s: Seq<BlockId>, ups: Seq<ChunkSectionUpdate>, i: int) -> bool {
    apply_updates(s, ups.take(i))[flat_index(ups[i].index)] != ups[i].id
}

/// The block of a section at an offset inside it.
pub open spec fn block_of(pos: ChunkSectionPos, index: ChunkSectionIndex) -> BlockPos {
    BlockPos {
        x: (32 * pos.x + index[0]) as i32,
        y: (32 * pos.y + index[1]) as i32,
        z: (32 * pos.z + index[2]) as i32,
    }
}

/// `m` with the previous and new block of each write that changes a block.
pub open spec fn recorded_updates(
    m: Map<BlockPos, BlockUpdate>,
    s: Seq<BlockId>,
    ups: Seq<ChunkSectionUpdate>,
    pos: ChunkSectionPos,
) -> Map<BlockPos, BlockUpdate>
    decreases ups.len(),
{
    if ups.len() == 0 {
        m
    } else {
        let i = ups.len() - 1;
        let prev = recorded_updates(m, s, ups.drop_last(), pos);
        if update_changes(s, ups, i) {
            prev.insert(
                block_of(pos, ups[i].index),
                BlockUpdate { old_id: apply_updates(s, ups.drop_last())[flat_index(ups[i].index)], new_id: ups[i].id },
            )
        } else {
            prev
        }
    }
}

/// The offset lies on face `face` of the section: any offset for 0, then the
/// faces -x, +x, -y, +y, -z, +z.
pub open spec fn on_face(face: int, i: ChunkSectionIndex) -> bool {
    if face == 0 {
        true
    } else if face == 1 {
        i[0] == 0
    } else if face == 2 {
        i[0] == 31
    } else if face == 3 {
        i[1] == 0
    } else if face == 4 {
        i[1] == 31
    } else if face == 5 {
        i[2] == 0
    } else {
        i[2] == 31
    }
}

/// Some write that changes a block is on face `face` of the section.
pub open spec fn changes_on(s: Seq<BlockId>, ups: Seq<ChunkSectionUpdate>, face: int) -> bool {
    exists|i: int| 0 <= i < ups.len() && update_changes(s, ups, i) && #[trigger] on_face(face, ups[i].index)
}

/// The sections whose meshes the writes make stale: the section itself when
/// a block changes, and each neighbor section that a changed block touches.
pub open spec fn stale_sections(s: Seq<BlockId>, ups: Seq<ChunkSectionUpdate>, pos: ChunkSectionPos) -> Set<ChunkSectionPos> {
    let c = changes_on(s, ups, 0);
    let nx = changes_on(s, ups, 1);
    let px = changes_on(s, ups, 2);
    let ny = changes_on(s, ups, 3);
    let py = changes_on(s, ups, 4);
    let nz = changes_on(s, ups, 5);
    let pz = changes_on(s, ups, 6);
    Set::new(
        |q: ChunkSectionPos|
            (c && q == pos) || (nx && q == ChunkSectionPos { x: (pos.x - 1) as i32, ..pos })
                || (px && q == ChunkSectionPos { x: (pos.x + 1) as i32, ..pos }) || (ny && q
                == ChunkSectionPos { y: (pos.y - 1) as i32, ..pos }) || (py && q == ChunkSectionPos {
                y: (pos.y + 1) as i32,
                ..pos
            }) || (nz && q == ChunkSectionPos { z: (pos.z - 1) as i32, ..pos }) || (pz && q
                == ChunkSectionPos { z: (pos.z + 1) as i32, ..pos }),
    )
}

/// The section at height `y` of a chunk column.
pub open spec fn section_at(chunk: ChunkPos, y: i32) -> ChunkSectionPos {
    ChunkSectionPos { x: chunk.x, y, z: chunk.z }
}

/// The coordinates of every block of the section, and of the neighbor
/// sections, fit in an `i32`.
pub open spec fn section_in_range(pos: ChunkSectionPos) -> bool {
    &&& -0x400_0000 < pos.x < 0x3ff_ffff
    &&& -0x400_0000 < pos.y < 0x3ff_ffff
    &&& -0x400_0000 < pos.z < 0x3ff_ffff
}

proof fn lemma_apply_updates_len(s: Seq<BlockId>, ups: Seq<ChunkSectionUpdate>)
    requires
        forall|i: int| 0 <= i < ups.len() ==> in_bounds(#[trigger] ups[i].index),
        s.len() == 32768,
    ensures
        apply_updates(s, ups).len() == 32768,
    decreases ups.len(),
{
    if ups.len() > 0 {
        lemma_apply_updates_len(s, ups.drop_last());
    }
}

/// Writes the blocks of a section stored one value per block, recording
/// each block that changes and the sections whose meshes go stale.
pub fn write_section_updates_array(
    data: &mut ArrayChunk<BlockId>,
    ctx: &mut ChunkUpdateContext,
    y: i32,
    updates: &[ChunkSectionUpdate],
)
    requires
        old(data).wf(),
        old(ctx).wf(),
        section_in_range(section_at(old(ctx).chunk, y)),
        forall|i: int| 0 <= i < updates@.len() ==> in_bounds(#[trigger] updates@[i].index),
    ensures
        final(data).wf(),
        final(ctx).wf(),
        final(ctx).chunk == old(ctx).chunk,
        final(data)@ == apply_updates(old(data)@, updates@),
        final(ctx).block_updates@ == recorded_updates(old(ctx).block_updates@, old(data)@, updates@, section_at(old(ctx).chunk, y)),
        final(ctx).rebuild@ == old(ctx).rebuild@.union(stale_sections(old(data)@, updates@, section_at(old(ctx).chunk, y))),
{
    let pos = ctx.chunk.section(y);
    let ghost s0 = data@;
    let ghost m0 = ctx.block_updates@;
    let mut c = false;
    let mut nx = false;
    let mut px = false;
    let mut ny = false;
    let mut py = false;
    let mut nz = false;
    let mut pz = false;
    let mut k: usize = 0;
    while k < updates.len()
        invariant
            data.wf(),
            ctx.wf(),
            ctx.chunk == old(ctx).chunk,
            ctx.rebuild == old(ctx).rebuild,
            pos == section_at(ctx.chunk, y),
            section_in_range(pos),
            forall|i: int| 0 <= i < updates@.len() ==> in_bounds(#[trigger] updates@[i].index),
            k <= updates@.len(),
            s0 == old(data)@,
            m0 == old(ctx).block_updates@,
            data@ == apply_updates(s0, updates@.take(k as int)),
            ctx.block_updates@ == recorded_updates(m0, s0, updates@.take(k as int), pos),
            c == changes_on(s0, updates@.take(k as int), 0),
            nx == changes_on(s0, updates@.take(k as int), 1),
            px == changes_on(s0, updates@.take(k as int), 2),
            ny == changes_on(s0, updates@.take(k as int), 3),
            py == changes_on(s0, updates@.take(k as int), 4),
            nz == changes_on(s0, updates@.take(k as int), 5),
            pz == changes_on(s0, updates@.take(k as int), 6),
        decreases updates@.len() - k,
    {
        let update = updates[k];
        let ghost pre = updates@.take(k as int);
        let ghost post = updates@.take(k + 1);
        proof {
            assert(post.drop_last() =~= pre);
            assert(post.last() == update);
            assert(post.len() == k + 1);
            assert forall|i: int| 0 <= i < k implies #[trigger] post.take(i) == pre.take(i) by {
                assert(post.take(i) =~= pre.take(i));
            }
            assert(post.take(k as int) =~= pre);
        }
        let slot = data.get(update.index);
        let changed = slot.0 != update.id.0;
        proof {
            assert(update_changes(s0, post, k as int) == changed);
            assert forall|i: int| 0 <= i < k implies update_changes(s0, post, i) == update_changes(s0, pre, i) by {
                assert(post.take(i) == pre.take(i));
                assert(post[i] == pre[i]);
            }
            assert forall|f: int| 0 <= f < 7 implies #[trigger] changes_on(s0, post, f) == (changes_on(s0, pre, f) || (changed && on_face(f, update.index))) by {
                if changes_on(s0, post, f) {
                    let i = choose|i: int| 0 <= i < post.len() && update_changes(s0, post, i) && #[trigger] on_face(f, post[i].index);
                    if i < k {
                        assert(update_changes(s0, pre, i) && on_face(f, pre[i].index));
                    }
                }
                if changes_on(s0, pre, f) {
                    let i = choose|i: int| 0 <= i < pre.len() && update_changes(s0, pre, i) && #[trigger] on_face(f, pre[i].index);
                    assert(update_changes(s0, post, i) && on_face(f, post[i].index));
                }
                if changed && on_face(f, update.index) {
                    assert(update_changes(s0, post, k as int) && on_face(f, post[k as int].index));
                }
            }
            assert(changes_on(s0, post, 0) == (changes_on(s0, pre, 0) || changed));
            assert(changes_on(s0, post, 1) == (changes_on(s0, pre, 1) || (changed && update.index[0] == 0)));
            assert(changes_on(s0, post, 2) == (changes_on(s0, pre, 2) || (changed && update.index[0] == 31)));
            assert(changes_on(s0, post, 3) == (changes_on(s0, pre, 3) || (changed && update.index[1] == 0)));
            assert(changes_on(s0, post, 4) == (changes_on(s0, pre, 4) || (changed && update.index[1] == 31)));
            assert(changes_on(s0, post, 5) == (changes_on(s0, pre, 5) || (changed && update.index[2] == 0)));
            assert(changes_on(s0, post, 6) == (changes_on(s0, pre, 6) || (changed && update.index[2] == 31)));
        }
        if changed {
            let block = pos.origin().offset([update.index[0] as i32, update.index[1] as i32, update.index[2] as i32]);
            ctx.block_updates.insert(block, BlockUpdate { old_id: slot, new_id: update.id });
            c = true;
            nx = nx || update.index[0] == 0;
            px = px || update.index[0] == 31;
            ny = ny || update.index[1] == 0;
            py = py || update.index[1] == 31;
            nz = nz || update.index[2] == 0;
            pz = pz || update.index[2] == 31;
            data.set(update.index, update.id);
            proof {
                assert(block == block_of(pos, update.index));
            }
        } else {
            proof {
                assert(data@ =~= apply_updates(s0, post));
            }
        }
        k += 1;
    }
    proof {
        assert(updates@.take(k as int) =~= updates@);
    }
    if c {
        ctx.rebuild.insert(pos);
    }
    if nx {
        ctx.rebuild.insert(pos.offset([-1, 0, 0]));
    }
    if px {
        ctx.rebuild.insert(pos.offset([1, 0, 0]));
    }
    if ny {
        ctx.rebuild.insert(pos.offset([0, -1, 0]));
    }
    if py {
        ctx.rebuild.insert(pos.offset([0, 1, 0]));
    }
    if nz {
        ctx.rebuild.insert(pos.offset([0, 0, -1]));
    }
    if pz {
        ctx.rebuild.insert(pos.offset([0, 0, 1]));
    }
    proof {
        assert(ctx.rebuild@ =~= old(ctx).rebuild@.union(stale_sections(s0, updates@, pos)));
    }
}


/// A section of `v` everywhere.
pub open spec fn filled(v: BlockId) -> Seq<BlockId> {
    Seq::new(32768, |_j: int| v)
}

proof fn lemma_noop_prefix(v: BlockId, ups: Seq<ChunkSectionUpdate>, i: int)
    requires
        0 <= i <= ups.len(),
        forall|j: int| 0 <= j < ups.len() ==> (#[trigger] ups[j]).id == v && in_bounds(ups[j].index),
    ensures
        apply_updates(filled(v), ups.take(i)) == filled(v),
    decreases i,
{
    let s = filled(v);
    if i > 0 {
        lemma_noop_prefix(v, ups, i - 1);
        assert(ups.take(i).drop_last() =~= ups.take(i - 1));
        assert(ups.take(i).last() == ups[i - 1]);
        assert(0 <= flat_index(ups[i - 1].index) < 32768);
        assert(s.update(flat_index(ups[i - 1].index), v) =~= s);
    }
}

proof fn lemma_noop_recorded(v: BlockId, m: Map<BlockPos, BlockUpdate>, ups: Seq<ChunkSectionUpdate>, pos: ChunkSectionPos)
    requires
        forall|j: int| 0 <= j < ups.len() ==> (#[trigger] ups[j]).id == v && in_bounds(ups[j].index),
    ensures
        recorded_updates(m, filled(v), ups, pos) == m,
        forall|f: int| !#[trigger] changes_on(filled(v), ups, f),
        apply_updates(filled(v), ups) == filled(v),
    decreases ups.len(),
{
    let s = filled(v);
    assert forall|i: int| 0 <= i < ups.len() implies !update_changes(s, ups, i) by {
        lemma_noop_prefix(v, ups, i);
        assert(0 <= flat_index(ups[i].index) < 32768);
    }
    lemma_noop_prefix(v, ups, ups.len() as int);
    assert(ups.take(ups.len() as int) =~= ups);
    if ups.len() > 0 {
        let d = ups.drop_last();
        assert forall|j: int| 0 <= j < d.len() implies (#[trigger] d[j]).id == v && in_bounds(d[j].index) by {
            assert(d[j] == ups[j]);
        }
        lemma_noop_recorded(v, m, d, pos);
    }
}

/// Writes the blocks of a section, recording each block that changes and the
/// sections whose meshes go stale. A section of one block everywhere stays
/// so when no write changes it.
pub fn write_section_block_updates(
    data: &mut ChunkData<BlockId>,
    ctx: &mut ChunkUpdateContext,
    y: i32,
    updates: &[ChunkSectionUpdate],
)
    requires
        old(data).wf(),
        old(ctx).wf(),
        section_in_range(section_at(old(ctx).chunk, y)),
        forall|i: int| 0 <= i < updates@.len() ==> in_bounds(#[trigger] updates@[i].index),
    ensures
        final(data).wf(),
        final(ctx).wf(),
        final(ctx).chunk == old(ctx).chunk,
        final(data)@ == apply_updates(old(data)@, updates@),
        final(ctx).block_updates@ == recorded_updates(old(ctx).block_updates@, old(data)@, updates@, section_at(old(ctx).chunk, y)),
        final(ctx).rebuild@ == old(ctx).rebuild@.union(stale_sections(old(data)@, updates@, section_at(old(ctx).chunk, y))),
        (match *old(data) {
            ChunkData::Homogeneous(v) => forall|i: int| 0 <= i < updates@.len() ==> (#[trigger] updates@[i]).id == v,
            ChunkData::Array(_) => false,
        }) ==> *final(data) == *old(data),
{
    match data {
        ChunkData::Homogeneous(id) => {
            let id = *id;
            let mut k: usize = 0;
            while k < updates.len()
                invariant
                    k <= updates@.len(),
                    forall|i: int| 0 <= i < k ==> (#[trigger] updates@[i]).id == id,
                ensures
                    k <= updates@.len(),
                    forall|i: int| 0 <= i < k ==> (#[trigger] updates@[i]).id == id,
                    k < updates@.len() ==> updates@[k as int].id != id,
                decreases updates@.len() - k,
            {
                if updates[k].id.0 != id.0 {
                    break;
                }
                k += 1;
            }
            if k == updates.len() {
                proof {
                    let pos = section_at(ctx.chunk, y);
                    lemma_noop_recorded(id, ctx.block_updates@, updates@, pos);
                    assert(old(data)@ == filled(id));
                    assert(stale_sections(old(data)@, updates@, pos) =~= Set::<ChunkSectionPos>::empty());
                    assert(ctx.rebuild@ =~= old(ctx).rebuild@.union(stale_sections(old(data)@, updates@, pos)));
                }
                return;
            }
            let mut chunk = ArrayChunk::homogeneous(id);
            write_section_updates_array(&mut chunk, ctx, y, updates);
            *data = ChunkData::Array(chunk);
        },
        ChunkData::Array(data) => write_section_updates_array(data, ctx, y, updates),
    }
}


/// The block light that each write queues: the emitted light of the new
/// block, at the written block.
pub open spec fn emitted_light(a: MutableChunkAccess, pos: ChunkSectionPos, updates: Seq<ChunkSectionUpdate>) -> Seq<(BlockPos, u16)> {
    Seq::new(updates.len(), |i: int| (block_of(pos, updates[i].index), a.registry_view().entry(updates[i].id.0 as int).properties.block_light))
}

/// The offset of the block stored at place `k` of a section.
pub open spec fn index_of_flat(k: int) -> ChunkSectionIndex {
    [(k / 1024) as usize, (k % 32) as usize, ((k / 32) % 32) as usize]
}

proof fn lemma_flat_roundtrip(k: int)
    requires
        0 <= k < 32768,
    ensures
        in_bounds(index_of_flat(k)),
        flat_index(index_of_flat(k)) == k,
{
    assert(0 <= k / 1024 < 32 && 0 <= k % 32 < 32 && 0 <= (k / 32) % 32 < 32) by (nonlinear_arith)
        requires 0 <= k < 32768;
    assert(1024 * (k / 1024) + 32 * ((k / 32) % 32) + k % 32 == k) by (nonlinear_arith)
        requires 0 <= k < 32768;
}

pub proof fn lemma_block_of_section(pos: ChunkSectionPos, index: ChunkSectionIndex)
    requires
        section_in_range(pos),
        in_bounds(index),
    ensures
        section_of(block_of(pos, index)) == pos,
        local_flat(block_of(pos, index)) == flat_index(index),
{
    let b = block_of(pos, index);
    assert(b.x as int == 32 * pos.x + index[0]);
    assert((32 * pos.x + index[0]) / 32 == pos.x && (32 * pos.x + index[0]) % 32 == index[0]) by (nonlinear_arith)
        requires 0 <= index[0] < 32;
    assert((32 * pos.y + index[1]) / 32 == pos.y && (32 * pos.y + index[1]) % 32 == index[1]) by (nonlinear_arith)
        requires 0 <= index[1] < 32;
    assert((32 * pos.z + index[2]) / 32 == pos.z && (32 * pos.z + index[2]) % 32 == index[2]) by (nonlinear_arith)
        requires 0 <= index[2] < 32;
}

proof fn lemma_apply_updates_registered(s: Seq<BlockId>, ups: Seq<ChunkSectionUpdate>, n: nat, j: int)
    requires
        forall|k: int| 0 <= k < s.len() ==> (#[trigger] s[k]).0 < n,
        forall|k: int| 0 <= k < ups.len() ==> (#[trigger] ups[k]).id.0 < n && in_bounds(ups[k].index),
        0 <= j < s.len(),
        s.len() == 32768,
    ensures
        apply_updates(s, ups).len() == s.len(),
        apply_updates(s, ups)[j].0 < n,
    decreases ups.len(),
{
    if ups.len() > 0 {
        let d = ups.drop_last();
        assert forall|k: int| 0 <= k < d.len() implies (#[trigger] d[k]).id.0 < n && in_bounds(d[k].index) by {
            assert(d[k] == ups[k]);
        }
        lemma_apply_updates_registered(s, d, n, j);
        assert(in_bounds(ups[ups.len() - 1].index));
    }
}

/// Writes the blocks of a held section, then queues the light changes of
/// the written blocks.
pub fn write_chunk_updates_to_section(
    pos: ChunkSectionPos,
    updates: &[ChunkSectionUpdate],
    access: &mut MutableChunkAccess,
    ctx: &mut ChunkUpdateContext,
    queues: &mut LightUpdateQueues,
)
    requires
        updates@.len() > 0,
        old(access).inv(),
        lights_valid(*old(access)),
        ids_registered(*old(access)),
        old(access).section_set().contains(pos),
        old(ctx).wf(),
        old(queues).wf(),
        section_at(old(ctx).chunk, pos.y) == pos,
        section_in_range(pos),
        forall|i: int| 0 <= i < updates@.len() ==> in_bounds(#[trigger] updates@[i].index),
        forall|i: int| 0 <= i < updates@.len() ==> (#[trigger] updates@[i]).id.0 < old(access).registry_view().len(),
    ensures
        final(access).inv(),
        lights_valid(*final(access)),
        ids_registered(*final(access)),
        final(ctx).wf(),
        final(queues).wf(),
        final(ctx).chunk == old(ctx).chunk,
        final(access).registry_view() == old(access).registry_view(),
        final(access).section_set() == old(access).section_set(),
        final(access).rebuild_set() == old(access).rebuild_set(),
        final(access).lights() == old(access).lights(),
        final(access).blocks().dom() == old(access).blocks().dom(),
        final(access).section_blocks(pos) == apply_updates(old(access).section_blocks(pos), updates@),
        forall|p: BlockPos| #[trigger] final(access).blocks().contains_key(p) && section_of(p) != pos ==> final(access).blocks()[p] == old(access).blocks()[p],
        final(ctx).block_updates@ == recorded_updates(old(ctx).block_updates@, old(access).section_blocks(pos), updates@, pos),
        final(ctx).rebuild@ == old(ctx).rebuild@.union(stale_sections(old(access).section_blocks(pos), updates@, pos)),
        ({
            let l = emitted_light(*final(access), pos, updates@);
            &&& final(queues).block_removal() == old(queues).block_removal() + concat_steps(l.len() as int, |i: int| block_removal_step(*final(access), l, i))
            &&& final(queues).sky_removal() == old(queues).sky_removal() + concat_steps(l.len() as int, |i: int| sky_removal_step(*final(access), l, i))
            &&& final(queues).block_update() == old(queues).block_update() + concat_steps(l.len() as int, |i: int| block_update_step(*final(access), l, i))
            &&& final(queues).sky_update() == old(queues).sky_update()
        }),
{
    let ghost a0 = *access;
    let _ = access.write_section_blocks(ctx, pos, updates);
    proof {
        assert(lights_valid(*access)) by {
            assert forall|p: BlockPos| #[trigger] access.lights().contains_key(p) implies access.lights()[p].0 < 256 by {
                assert(a0.lights().contains_key(p));
            }
        }
        assert(ids_registered(*access)) by {
            assert forall|p: BlockPos| #[trigger] access.blocks().contains_key(p) implies access.blocks()[p].0 < access.registry_view().len() by {
                assert(a0.blocks().contains_key(p));
                if section_of(p) == pos {
                    access.lemma_block_in_section(p);
                    let s = a0.section_blocks(pos);
                    a0.lemma_section_len(pos);
                    assert forall|j: int| 0 <= j < s.len() implies (#[trigger] s[j]).0 < a0.registry_view().len() by {
                        lemma_flat_roundtrip(j);
                        let q = block_of(pos, index_of_flat(j));
                        lemma_block_of_section(pos, index_of_flat(j));
                        a0.lemma_holds(q);
                        a0.lemma_block_in_section(q);
                    }
                    assert(0 <= local_flat(p) < 32768) by {
                        super::chunk::lemma_block_index_roundtrip(p);
                    }
                    lemma_apply_updates_registered(s, updates@, a0.registry_view().len(), local_flat(p));
                }
            }
        }
    }
    let mut lights: Vec<(BlockPos, u16)> = Vec::with_capacity(updates.len());
    let mut k: usize = 0;
    while k < updates.len()
        invariant
            access.inv(),
            section_in_range(pos),
            forall|i: int| 0 <= i < updates@.len() ==> in_bounds(#[trigger] updates@[i].index),
            forall|i: int| 0 <= i < updates@.len() ==> (#[trigger] updates@[i]).id.0 < access.registry_view().len(),
            k <= updates@.len(),
            lights@ == emitted_light(*access, pos, updates@).take(k as int),
        decreases updates@.len() - k,
    {
        let update = updates[k];
        let block = pos.origin().offset([update.index[0] as i32, update.index[1] as i32, update.index[2] as i32]);
        let light = access.registry().block_light(update.id);
        lights.push((block, light));
        proof {
            assert(block == block_of(pos, update.index));
            assert(lights@ =~= emitted_light(*access, pos, updates@).take(k + 1));
        }
        k += 1;
    }
    proof {
        assert(lights@ =~= emitted_light(*access, pos, updates@));
        assert forall|i: int| 0 <= i < lights@.len() implies access.lights().contains_key((#[trigger] lights@[i]).0) by {
            lemma_block_of_section(pos, updates@[i].index);
            access.lemma_holds(lights@[i].0);
        }
    }
    queues.queue_blocklight_updates(access, lights.as_slice());
}

proof fn lemma_apply_updates_unchanged(s: Seq<BlockId>, ups: Seq<ChunkSectionUpdate>, j: int)
    requires
        forall|i: int| 0 <= i < ups.len() ==> in_bounds(#[trigger] ups[i].index),
        s.len() == 32768,
        0 <= j < 32768,
    ensures
        apply_updates(s, ups)[j] != s[j] ==> exists|i: int| 0 <= i < ups.len() && flat_index((#[trigger] ups[i]).index) == j,
    decreases ups.len(),
{
    if ups.len() > 0 {
        let d = ups.drop_last();
        assert forall|i: int| 0 <= i < d.len() implies in_bounds(#[trigger] d[i].index) by {
            assert(d[i] == ups[i]);
        }
        lemma_apply_updates_unchanged(s, d, j);
        lemma_apply_updates_len(s, d);
        if apply_updates(s, ups)[j] != s[j] {
            if flat_index(ups.last().index) != j {
                assert(apply_updates(s, d)[j] != s[j]);
                let i = choose|i: int| 0 <= i < d.len() && flat_index((#[trigger] d[i]).index) == j;
                assert(ups[i] == d[i]);
            } else {
                assert(flat_index(ups[ups.len() - 1].index) == j);
            }
        }
    }
}

/// After the writes of a section, a held block that changed is a written
/// block.
pub proof fn lemma_changed_blocks_written(a0: MutableChunkAccess, a1: MutableChunkAccess, pos: ChunkSectionPos, ups: Seq<ChunkSectionUpdate>)
    requires
        a0.inv(),
        a0.section_set().contains(pos),
        section_in_range(pos),
        forall|i: int| 0 <= i < ups.len() ==> in_bounds(#[trigger] ups[i].index),
        a1.blocks().dom() == a0.blocks().dom(),
        a1.section_blocks(pos) == apply_updates(a0.section_blocks(pos), ups),
        forall|p: BlockPos| #[trigger] a1.blocks().contains_key(p) && section_of(p) != pos ==> a1.blocks()[p] == a0.blocks()[p],
    ensures
        forall|p: BlockPos| #[trigger] a1.blocks().contains_key(p) && a1.blocks()[p] != a0.blocks()[p] ==> exists|i: int| 0 <= i < ups.len() && block_of(pos, (#[trigger] ups[i]).index) == p,
{
    assert forall|p: BlockPos| #[trigger] a1.blocks().contains_key(p) && a1.blocks()[p] != a0.blocks()[p] implies exists|i: int| 0 <= i < ups.len() && block_of(pos, (#[trigger] ups[i]).index) == p by {
        assert(section_of(p) == pos);
        assert(a0.blocks().contains_key(p));
        a0.lemma_block_in_section(p);
        a1.lemma_block_in_section(p);
        a0.lemma_section_len(pos);
        super::chunk::lemma_block_index_roundtrip(p);
        let j = local_flat(p);
        lemma_apply_updates_unchanged(a0.section_blocks(pos), ups, j);
        let i = choose|i: int| 0 <= i < ups.len() && flat_index((#[trigger] ups[i]).index) == j;
        lemma_block_of_section(pos, ups[i].index);
        super::access::lemma_local_flat_injective(p, block_of(pos, ups[i].index));
    }
}

/// No two writes of `ups` go to the same block.
pub open spec fn distinct_writes(ups: Seq<ChunkSectionUpdate>) -> bool {
    forall|i: int, j: int| 0 <= i < j < ups.len() ==> flat_index((#[trigger] ups[i]).index) != flat_index((#[trigger] ups[j]).index)
}

proof fn lemma_apply_updates_at(s: Seq<BlockId>, ups: Seq<ChunkSectionUpdate>, k: int)
    requires
        s.len() == 32768,
        forall|i: int| 0 <= i < ups.len() ==> in_bounds(#[trigger] ups[i].index),
        distinct_writes(ups),
        0 <= k < ups.len(),
    ensures
        apply_updates(s, ups)[flat_index(ups[k].index)] == ups[k].id,
    decreases ups.len(),
{
    let d = ups.drop_last();
    assert forall|i: int| 0 <= i < d.len() implies in_bounds(#[trigger] d[i].index) by {
        assert(d[i] == ups[i]);
    }
    lemma_apply_updates_len(s, d);
    assert(in_bounds(ups[k].index));
    if k < ups.len() - 1 {
        assert(distinct_writes(d)) by {
            assert forall|i: int, j: int| 0 <= i < j < d.len() implies flat_index((#[trigger] d[i]).index) != flat_index((#[trigger] d[j]).index) by {
                assert(d[i] == ups[i] && d[j] == ups[j]);
            }
        }
        lemma_apply_updates_at(s, d, k);
        assert(d[k] == ups[k]);
        assert(flat_index(ups[k].index) != flat_index(ups[ups.len() - 1].index));
    }
}

/// With distinct writes, each written block holds what its write wrote.
pub proof fn lemma_distinct_write_lands(a0: MutableChunkAccess, a1: MutableChunkAccess, pos: ChunkSectionPos, ups: Seq<ChunkSectionUpdate>, k: int)
    requires
        a0.inv(),
        a0.section_set().contains(pos),
        a1.section_set() == a0.section_set(),
        section_in_range(pos),
        forall|i: int| 0 <= i < ups.len() ==> in_bounds(#[trigger] ups[i].index),
        distinct_writes(ups),
        0 <= k < ups.len(),
        a1.section_blocks(pos) == apply_updates(a0.section_blocks(pos), ups),
    ensures
        a1.blocks().contains_key(block_of(pos, ups[k].index)),
        a1.blocks()[block_of(pos, ups[k].index)] == ups[k].id,
{
    let b = block_of(pos, ups[k].index);
    lemma_block_of_section(pos, ups[k].index);
    a1.lemma_holds(b);
    a1.lemma_block_in_section(b);
    a0.lemma_section_len(pos);
    lemma_apply_updates_at(a0.section_blocks(pos), ups, k);
}

/// The blocks that the writes of a section record are its written blocks,
/// with registered kinds when the section's blocks and the writes are.
pub proof fn lemma_recorded_facts(
    m: Map<BlockPos, BlockUpdate>,
    s: Seq<BlockId>,
    ups: Seq<ChunkSectionUpdate>,
    pos: ChunkSectionPos,
    n: nat,
)
    requires
        s.len() == 32768,
        forall|k: int| 0 <= k < s.len() ==> (#[trigger] s[k]).0 < n,
        forall|k: int| 0 <= k < ups.len() ==> (#[trigger] ups[k]).id.0 < n && in_bounds(ups[k].index),
        forall|b: BlockPos| #[trigger] m.contains_key(b) ==> m[b].old_id.0 < n && m[b].new_id.0 < n,
    ensures
        forall|b: BlockPos| #[trigger] recorded_updates(m, s, ups, pos).contains_key(b) ==> recorded_updates(m, s, ups, pos)[b].old_id.0 < n
            && recorded_updates(m, s, ups, pos)[b].new_id.0 < n
            && (m.contains_key(b) || exists|i: int| 0 <= i < ups.len() && block_of(pos, (#[trigger] ups[i]).index) == b),
    decreases ups.len(),
{
    if ups.len() > 0 {
        let d = ups.drop_last();
        assert forall|k: int| 0 <= k < d.len() implies (#[trigger] d[k]).id.0 < n && in_bounds(d[k].index) by {
            assert(d[k] == ups[k]);
        }
        lemma_recorded_facts(m, s, d, pos, n);
        let i = ups.len() - 1;
        assert(ups.take(i) =~= d);
        lemma_apply_updates_len(s, d);
        let j = flat_index(ups[i].index);
        lemma_apply_updates_registered(s, d, n, j);
        let r = recorded_updates(m, s, ups, pos);
        assert forall|b: BlockPos| #[trigger] r.contains_key(b) implies r[b].old_id.0 < n && r[b].new_id.0 < n
            && (m.contains_key(b) || exists|k: int| 0 <= k < ups.len() && block_of(pos, (#[trigger] ups[k]).index) == b) by {
            if update_changes(s, ups, i) && b == block_of(pos, ups[i].index) {
            } else {
                let prev = recorded_updates(m, s, d, pos);
                assert(prev.contains_key(b));
                if !m.contains_key(b) {
                    let k = choose|k: int| 0 <= k < d.len() && block_of(pos, (#[trigger] d[k]).index) == b;
                    assert(ups[k] == d[k]);
                }
            }
        }
    }
}

/// Two accesses that hold the same blocks in a held section store the same
/// blocks for it.
pub proof fn lemma_section_blocks_from_blocks(a: MutableChunkAccess, b: MutableChunkAccess, q: ChunkSectionPos)
    requires
        a.inv(),
        b.inv(),
        a.section_set().contains(q),
        b.section_set().contains(q),
        section_in_range(q),
        forall|p: BlockPos| section_of(p) == q ==> #[trigger] a.blocks()[p] == b.blocks()[p],
    ensures
        a.section_blocks(q) == b.section_blocks(q),
{
    a.lemma_section_len(q);
    b.lemma_section_len(q);
    assert forall|j: int| 0 <= j < 32768 implies a.section_blocks(q)[j] == b.section_blocks(q)[j] by {
        lemma_flat_roundtrip(j);
        let p = block_of(q, index_of_flat(j));
        lemma_block_of_section(q, index_of_flat(j));
        a.lemma_holds(p);
        b.lemma_holds(p);
        a.lemma_block_in_section(p);
        b.lemma_block_in_section(p);
        assert(a.blocks()[p] == b.blocks()[p]);
    }
    assert(a.section_blocks(q) =~= b.section_blocks(q));
}

/// The stored blocks of a held section are kinds of the registry when all
/// held blocks are.
pub proof fn lemma_section_blocks_registered(a: MutableChunkAccess, q: ChunkSectionPos)
    requires
        a.inv(),
        a.section_set().contains(q),
        section_in_range(q),
        super::propagation::ids_registered(a),
    ensures
        a.section_blocks(q).len() == 32768,
        forall|j: int| 0 <= j < 32768 ==> (#[trigger] a.section_blocks(q)[j]).0 < a.registry_view().len(),
{
    a.lemma_section_len(q);
    assert forall|j: int| 0 <= j < 32768 implies (#[trigger] a.section_blocks(q)[j]).0 < a.registry_view().len() by {
        lemma_flat_roundtrip(j);
        let p = block_of(q, index_of_flat(j));
        lemma_block_of_section(q, index_of_flat(j));
        a.lemma_holds(p);
        a.lemma_block_in_section(p);
    }
}

/// A written block of a section in range lies well inside the `i32` heights.
pub proof fn lemma_block_of_height(pos: ChunkSectionPos, index: ChunkSectionIndex)
    requires
        section_in_range(pos),
        in_bounds(index),
    ensures
        i32::MIN + 1 < block_of(pos, index).y < i32::MAX - 2,
{
}

} // verus!
