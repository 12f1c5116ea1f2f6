//! Writing queued block updates to the sections of a chunk, and spreading
//! the light they change.
use super::access::MutableChunkAccess;
use super::chunk::{flat_index, in_bounds, pos_to_index, BlockUpdate, ChunkSectionPos, ChunkSectionUpdate, CHUNK_LENGTH};
use super::propagation::{
    block_removal_step, block_update_step, concat_steps, covered, first_time, has_nbr, ids_registered,
    light_level, lights_valid, nbr, propagation_frame, queued, ready_to_propagate, settled,
    sky_removal_step, transmissive, column_block, LightUpdateQueues, all_sourced, at_edge, lit_by_nbr,
    removal_next_to, removals_at_least, sourced_by, sources_before,
};
use super::lighting::{node_wf, solid_at, SkyLightColumns, SkyLightNode};
use super::registry::BlockRegistry;
use super::section_update::{
    apply_updates, block_of, distinct_writes, emitted_light, lemma_block_of_height, lemma_block_of_section, lemma_distinct_write_lands, lemma_changed_blocks_written,
    lemma_recorded_facts, lemma_section_blocks_from_blocks, lemma_section_blocks_registered,
    recorded_updates, section_at, section_in_range, stale_sections, write_chunk_updates_to_section,
    ChunkUpdateContext,
};
use super::{section_of, BlockPos, ChunkPos};
use crate::vecmap::VecMap;
use vstd::prelude::*;

verus! {

/// The position of every entry of step `i` waits in the concatenated steps.
proof fn lemma_concat_queued(n: int, f: spec_fn(int) -> Seq<(BlockPos, u16)>, i: int, j: int)
    requires
        0 <= i < n,
        0 <= j < f(i).len(),
    ensures
        queued(concat_steps(n, f), f(i)[j].0),
    decreases n,
{
    if i < n - 1 {
        lemma_concat_queued(n - 1, f, i, j);
        lemma_queued_prefix(concat_steps(n - 1, f), f(n - 1), f(i)[j].0);
    } else {
        let k = concat_steps(n - 1, f).len() + j;
        assert(concat_steps(n, f)[k] == f(i)[j]);
    }
}

/// A position that occurs in a list occurs a first time.
proof fn lemma_first_occurrence(l: Seq<(BlockPos, u16)>, q: BlockPos, i: int)
    requires
        0 <= i < l.len(),
        l[i].0 == q,
    ensures
        exists|k: int| 0 <= k <= i && l[k].0 == q && first_time(l, k),
    decreases i,
{
    if first_time(l, i) {
    } else {
        let j = choose|j: int| 0 <= j < i && (#[trigger] l[j]).0 == l[i].0;
        lemma_first_occurrence(l, q, j);
    }
}

proof fn lemma_queued_prefix(q: Seq<(BlockPos, u16)>, extra: Seq<(BlockPos, u16)>, p: BlockPos)
    requires
        queued(q, p),
    ensures
        queued(q + extra, p),
{
    let i = choose|i: int| 0 <= i < q.len() && (#[trigger] q[i]).0 == p;
    assert((q + extra)[i] == q[i]);
}

/// More queued work keeps the light ready to spread.
pub proof fn lemma_ready_extend(
    a: MutableChunkAccess,
    removal: Seq<(BlockPos, u16)>,
    update: Seq<(BlockPos, u16)>,
    more_removal: Seq<(BlockPos, u16)>,
    more_update: Seq<(BlockPos, u16)>,
    sky: bool,
)
    requires
        ready_to_propagate(a, removal, update, sky),
        forall|i: int| 0 <= i < more_update.len() ==> (#[trigger] more_update[i]).1 <= 15,
    ensures
        ready_to_propagate(a, removal + more_removal, update + more_update, sky),
{
    let r2 = removal + more_removal;
    let u2 = update + more_update;
    assert forall|i: int| 0 <= i < u2.len() implies (#[trigger] u2[i]).1 <= 15 by {
        if i >= update.len() {
            assert(u2[i] == more_update[i - update.len()]);
        }
    }
    assert forall|p: BlockPos| #[trigger] a.lights().contains_key(p) implies covered(a, p, sky, r2, u2) || queued(r2, p) by {
        if queued(removal, p) {
            lemma_queued_prefix(removal, more_removal, p);
        } else if settled(a, p, sky) {
        } else if queued(update, p) {
            lemma_queued_prefix(update, more_update, p);
        } else {
            let k = choose|k: int| 0 <= k < 6 && has_nbr(p, k) && queued(removal, #[trigger] nbr(p, k));
            lemma_queued_prefix(removal, more_removal, nbr(p, k));
        }
    }
}

proof fn lemma_queued_suffix(q: Seq<(BlockPos, u16)>, extra: Seq<(BlockPos, u16)>, p: BlockPos)
    requires
        queued(extra, p),
    ensures
        queued(q + extra, p),
{
    let i = choose|i: int| 0 <= i < extra.len() && (#[trigger] extra[i]).0 == p;
    assert((q + extra)[q.len() + i] == extra[i]);
}

/// Writing blocks keeps the light ready to spread, once the work the writes
/// queue is added: a block whose light could now be too high next to a block
/// that newly lets light through has that block queued for removal.
pub proof fn lemma_ready_after_write(
    a0: MutableChunkAccess,
    a1: MutableChunkAccess,
    l: Seq<(BlockPos, u16)>,
    removal: Seq<(BlockPos, u16)>,
    update: Seq<(BlockPos, u16)>,
    new_removal: Seq<(BlockPos, u16)>,
    new_update: Seq<(BlockPos, u16)>,
    sky: bool,
)
    requires
        ready_to_propagate(a0, removal, update, sky),
        a1.lights() == a0.lights(),
        a1.registry_view() == a0.registry_view(),
        a1.blocks().dom() == a0.blocks().dom(),
        forall|p: BlockPos| #[trigger] a1.blocks().contains_key(p) && a1.blocks()[p] != a0.blocks()[p] ==> exists|i: int| 0 <= i < l.len() && (#[trigger] l[i]).0 == p,
        forall|i: int| 0 <= i < l.len() && first_time(l, i) && transmissive(a1, (#[trigger] l[i]).0) ==> queued(new_removal, l[i].0),
        forall|i: int| 0 <= i < new_update.len() ==> (#[trigger] new_update[i]).1 <= 15,
    ensures
        ready_to_propagate(a1, removal + new_removal, update + new_update, sky),
{
    lemma_ready_extend(a0, removal, update, new_removal, new_update, sky);
    let r2 = removal + new_removal;
    let u2 = update + new_update;
    a0.lemma_same_domain();
    a1.lemma_same_domain();
    assert forall|p: BlockPos| #[trigger] a1.lights().contains_key(p) implies covered(a1, p, sky, r2, u2) || queued(r2, p) by {
        assert(covered(a0, p, sky, r2, u2) || queued(r2, p));
        if !queued(r2, p) && !queued(u2, p) && !(exists|k: int| 0 <= k < 6 && has_nbr(p, k) && queued(r2, #[trigger] nbr(p, k))) {
            assert(settled(a0, p, sky));
            assert forall|k: int|
                0 <= k < 6 && has_nbr(p, k) && a1.lights().contains_key(#[trigger] nbr(p, k)) && transmissive(a1, nbr(p, k))
                    implies super::propagation::light_level(a1.lights()[nbr(p, k)], sky) + 1 >= super::propagation::light_level(a1.lights()[p], sky) by {
                let q = nbr(p, k);
                assert(a1.blocks().contains_key(q));
                if a1.blocks()[q] != a0.blocks()[q] {
                    let i = choose|i: int| 0 <= i < l.len() && (#[trigger] l[i]).0 == q;
                    lemma_first_occurrence(l, q, i);
                    let i0 = choose|i0: int| 0 <= i0 <= i && l[i0].0 == q && first_time(l, i0);
                    assert(queued(new_removal, l[i0].0));
                    lemma_queued_suffix(removal, new_removal, q);
                    assert(false);
                }
                assert(transmissive(a0, q));
            }
            assert(settled(a1, p, sky));
        }
    }
}

/// Every entry of the concatenated steps is an entry of some step.
proof fn lemma_concat_entry(n: int, f: spec_fn(int) -> Seq<(BlockPos, u16)>, k: int)
    requires
        0 <= k < concat_steps(n, f).len(),
    ensures
        exists|i: int, j: int| 0 <= i < n && 0 <= j < f(i).len() && concat_steps(n, f)[k] == #[trigger] f(i)[j],
    decreases n,
{
    if n > 0 {
        let prev = concat_steps(n - 1, f);
        if k < prev.len() {
            lemma_concat_entry(n - 1, f, k);
            let (i, j) = choose|i: int, j: int| 0 <= i < n - 1 && 0 <= j < f(i).len() && prev[k] == #[trigger] f(i)[j];
            assert(concat_steps(n, f)[k] == prev[k]);
        } else {
            assert(concat_steps(n, f)[k] == f(n - 1)[k - prev.len()]);
        }
    }
}

/// Spreading one kind of light keeps the other kind ready to spread.
pub proof fn lemma_ready_after_frame(
    a0: MutableChunkAccess,
    a1: MutableChunkAccess,
    removal: Seq<(BlockPos, u16)>,
    update: Seq<(BlockPos, u16)>,
    sky: bool,
)
    requires
        ready_to_propagate(a0, removal, update, sky),
        propagation_frame(a0, a1, !sky),
    ensures
        ready_to_propagate(a1, removal, update, sky),
{
    assert forall|p: BlockPos| #[trigger] a1.lights().contains_key(p) implies covered(a1, p, sky, removal, update) || queued(removal, p) by {
        assert(a0.lights().contains_key(p));
        if settled(a0, p, sky) && !queued(removal, p) && !queued(update, p) {
            assert forall|k: int|
                0 <= k < 6 && has_nbr(p, k) && a1.lights().contains_key(#[trigger] nbr(p, k)) && transmissive(a1, nbr(p, k))
                    implies light_level(a1.lights()[nbr(p, k)], sky) + 1 >= light_level(a1.lights()[p], sky) by {
                assert(a0.lights().contains_key(nbr(p, k)));
                assert(light_level(a1.lights()[nbr(p, k)], !!sky) == light_level(a0.lights()[nbr(p, k)], !!sky));
                assert(light_level(a1.lights()[p], !!sky) == light_level(a0.lights()[p], !!sky));
            }
        }
    }
}

/// Every kind of block in the registry emits at most the brightest level of
/// block light.
pub open spec fn lights_fit(r: BlockRegistry) -> bool {
    forall|k: int| 0 <= k < r.len() ==> (#[trigger] r.entry(k)).properties.block_light <= 15
}

/// The recorded block changes name registered kinds, at heights well inside
/// the `i32` range.
pub open spec fn records_ok(m: Map<BlockPos, BlockUpdate>, n: nat) -> bool {
    forall|b: BlockPos| #[trigger] m.contains_key(b) ==> m[b].old_id.0 < n && m[b].new_id.0 < n && i32::MIN + 1 < b.y < i32::MAX - 2
}

/// The writes of a chunk can be applied: each entry writes, at least once, a
/// held section in range, inside the section and with registered kinds; no
/// two entries name the same height.
pub open spec fn chunk_writes_ok(a: MutableChunkAccess, chunk: ChunkPos, ups: Seq<(i32, Vec<ChunkSectionUpdate>)>) -> bool {
    &&& forall|j: int| 0 <= j < ups.len() ==> (#[trigger] ups[j]).1@.len() > 0
        && a.section_set().contains(section_at(chunk, ups[j].0))
        && section_in_range(section_at(chunk, ups[j].0))
        && (forall|i: int| 0 <= i < ups[j].1@.len() ==> in_bounds((#[trigger] ups[j].1@[i]).index) && ups[j].1@[i].id.0 < a.registry_view().len())
    &&& forall|j: int, k: int| 0 <= j < k < ups.len() ==> (#[trigger] ups[j]).0 != (#[trigger] ups[k]).0
}

/// One of the first `n` entries writes the section `s`.
pub open spec fn rewritten(chunk: ChunkPos, ups: Seq<(i32, Vec<ChunkSectionUpdate>)>, n: int, s: ChunkSectionPos) -> bool {
    exists|j: int| 0 <= j < n && #[trigger] section_at(chunk, ups[j].0) == s
}

/// The block changes recorded by the first `n` entries, one section after
/// the other, starting from `m`.
pub open spec fn chunk_records(
    m: Map<BlockPos, BlockUpdate>,
    a: MutableChunkAccess,
    chunk: ChunkPos,
    ups: Seq<(i32, Vec<ChunkSectionUpdate>)>,
    n: int,
) -> Map<BlockPos, BlockUpdate>
    decreases n,
{
    if n <= 0 {
        m
    } else {
        let pos = section_at(chunk, ups[n - 1].0);
        recorded_updates(chunk_records(m, a, chunk, ups, n - 1), a.section_blocks(pos), ups[n - 1].1@, pos)
    }
}

/// The sections whose meshes the first `n` entries make stale.
pub open spec fn chunk_stale(a: MutableChunkAccess, chunk: ChunkPos, ups: Seq<(i32, Vec<ChunkSectionUpdate>)>, n: int) -> Set<ChunkSectionPos>
    decreases n,
{
    if n <= 0 {
        Set::empty()
    } else {
        let pos = section_at(chunk, ups[n - 1].0);
        chunk_stale(a, chunk, ups, n - 1).union(stale_sections(a.section_blocks(pos), ups[n - 1].1@, pos))
    }
}

/// The blocks that writing a section changes are among its emitted lights.
proof fn lemma_changed_in_emitted(a0: MutableChunkAccess, a1: MutableChunkAccess, pos: ChunkSectionPos, ups: Seq<ChunkSectionUpdate>)
    requires
        a0.inv(),
        a0.section_set().contains(pos),
        section_in_range(pos),
        forall|i: int| 0 <= i < ups.len() ==> in_bounds(#[trigger] ups[i].index),
        a1.blocks().dom() == a0.blocks().dom(),
        a1.section_blocks(pos) == apply_updates(a0.section_blocks(pos), ups),
        forall|p: BlockPos| #[trigger] a1.blocks().contains_key(p) && section_of(p) != pos ==> a1.blocks()[p] == a0.blocks()[p],
    ensures
        forall|p: BlockPos| #[trigger] a1.blocks().contains_key(p) && a1.blocks()[p] != a0.blocks()[p]
            ==> exists|i: int| 0 <= i < emitted_light(a1, pos, ups).len() && (#[trigger] emitted_light(a1, pos, ups)[i]).0 == p,
{
    lemma_changed_blocks_written(a0, a1, pos, ups);
    let l = emitted_light(a1, pos, ups);
    assert forall|p: BlockPos| #[trigger] a1.blocks().contains_key(p) && a1.blocks()[p] != a0.blocks()[p]
        implies exists|i: int| 0 <= i < l.len() && (#[trigger] l[i]).0 == p by {
        let i = choose|i: int| 0 <= i < ups.len() && block_of(pos, (#[trigger] ups[i]).index) == p;
        assert(l[i].0 == p);
    }
}

/// Writing a section keeps the sky light ready to spread, with the removals
/// the writes queue.
proof fn lemma_section_ready_sky(
    a0: MutableChunkAccess,
    a1: MutableChunkAccess,
    pos: ChunkSectionPos,
    ups: Seq<ChunkSectionUpdate>,
    removal: Seq<(BlockPos, u16)>,
    update: Seq<(BlockPos, u16)>,
)
    requires
        ready_to_propagate(a0, removal, update, true),
        a0.inv(),
        a0.section_set().contains(pos),
        section_in_range(pos),
        forall|i: int| 0 <= i < ups.len() ==> in_bounds(#[trigger] ups[i].index),
        a1.lights() == a0.lights(),
        a1.registry_view() == a0.registry_view(),
        a1.blocks().dom() == a0.blocks().dom(),
        a1.section_blocks(pos) == apply_updates(a0.section_blocks(pos), ups),
        forall|p: BlockPos| #[trigger] a1.blocks().contains_key(p) && section_of(p) != pos ==> a1.blocks()[p] == a0.blocks()[p],
    ensures
        ({
            let l = emitted_light(a1, pos, ups);
            ready_to_propagate(a1, removal + concat_steps(l.len() as int, |i: int| sky_removal_step(a1, l, i)), update, true)
        }),
{
    let l = emitted_light(a1, pos, ups);
    let f = |i: int| sky_removal_step(a1, l, i);
    let r = concat_steps(l.len() as int, f);
    lemma_changed_in_emitted(a0, a1, pos, ups);
    assert forall|i: int| 0 <= i < l.len() && first_time(l, i) && transmissive(a1, (#[trigger] l[i]).0) implies queued(r, l[i].0) by {
        assert(f(i)[0].0 == l[i].0);
        lemma_concat_queued(l.len() as int, f, i, 0);
    }
    lemma_ready_after_write(a0, a1, l, removal, update, r, Seq::empty(), true);
    assert(update + Seq::<(BlockPos, u16)>::empty() =~= update);
}

/// Writing a section keeps the block light ready to spread, with the
/// removals and updates the writes queue.
proof fn lemma_section_ready_block(
    a0: MutableChunkAccess,
    a1: MutableChunkAccess,
    pos: ChunkSectionPos,
    ups: Seq<ChunkSectionUpdate>,
    removal: Seq<(BlockPos, u16)>,
    update: Seq<(BlockPos, u16)>,
)
    requires
        ready_to_propagate(a0, removal, update, false),
        a0.inv(),
        a0.section_set().contains(pos),
        section_in_range(pos),
        lights_fit(a0.registry_view()),
        forall|i: int| 0 <= i < ups.len() ==> in_bounds(#[trigger] ups[i].index) && ups[i].id.0 < a0.registry_view().len(),
        a1.lights() == a0.lights(),
        a1.registry_view() == a0.registry_view(),
        a1.blocks().dom() == a0.blocks().dom(),
        a1.section_blocks(pos) == apply_updates(a0.section_blocks(pos), ups),
        forall|p: BlockPos| #[trigger] a1.blocks().contains_key(p) && section_of(p) != pos ==> a1.blocks()[p] == a0.blocks()[p],
    ensures
        ({
            let l = emitted_light(a1, pos, ups);
            ready_to_propagate(
                a1,
                removal + concat_steps(l.len() as int, |i: int| block_removal_step(a1, l, i)),
                update + concat_steps(l.len() as int, |i: int| block_update_step(a1, l, i)),
                false,
            )
        }),
{
    let l = emitted_light(a1, pos, ups);
    let f = |i: int| block_removal_step(a1, l, i);
    let g = |i: int| block_update_step(a1, l, i);
    let r = concat_steps(l.len() as int, f);
    let u = concat_steps(l.len() as int, g);
    lemma_changed_in_emitted(a0, a1, pos, ups);
    assert forall|i: int| 0 <= i < l.len() && first_time(l, i) && transmissive(a1, (#[trigger] l[i]).0) implies queued(r, l[i].0) by {
        assert(f(i)[0].0 == l[i].0);
        lemma_concat_queued(l.len() as int, f, i, 0);
    }
    assert forall|k: int| 0 <= k < u.len() implies (#[trigger] u[k]).1 <= 15 by {
        lemma_concat_entry(l.len() as int, g, k);
        let (i, j) = choose|i: int, j: int| 0 <= i < l.len() && 0 <= j < g(i).len() && u[k] == #[trigger] g(i)[j];
        assert(g(i)[j] == l[i]);
        assert(a1.registry_view().entry(ups[i].id.0 as int).properties.block_light <= 15);
    }
    lemma_ready_after_write(a0, a1, l, removal, update, r, u, false);
}

/// Two entries at different heights write different sections.
proof fn lemma_sections_distinct(chunk: ChunkPos, ups: Seq<(i32, Vec<ChunkSectionUpdate>)>, a: MutableChunkAccess, j: int, k: int)
    requires
        chunk_writes_ok(a, chunk, ups),
        0 <= j < ups.len(),
        0 <= k < ups.len(),
        j != k,
    ensures
        section_at(chunk, ups[j].0) != section_at(chunk, ups[k].0),
{
    if j < k {
        assert(ups[j].0 != ups[k].0);
    } else {
        assert(ups[k].0 != ups[j].0);
    }
}

/// The block light that each block emits.
pub open spec fn block_emission(a: MutableChunkAccess) -> spec_fn(BlockPos) -> int {
    |q: BlockPos| a.registry_view().entry(a.blocks()[q].0 as int).properties.block_light as int
}

/// A removal next to a block stays next to it with more removals queued
/// behind, while the lights are the same.
proof fn lemma_next_to_append(a: MutableChunkAccess, b: MutableChunkAccess, rem: Seq<(BlockPos, u16)>, extra: Seq<(BlockPos, u16)>, q: BlockPos)
    requires
        b.lights() == a.lights(),
        removal_next_to(a, rem, q, false),
    ensures
        removal_next_to(b, rem + extra, q, false),
{
    let (k, i) = choose|k: int, i: int| #![trigger rem[i], nbr(q, k)]
        0 <= k < 6 && has_nbr(q, k) && 0 <= i < rem.len() && rem[i].0 == nbr(q, k) && rem[i].1 > light_level(a.lights()[q], false);
    assert((rem + extra)[i] == rem[i]);
}

/// Writing one section with distinct writes keeps the block light sourced
/// once the removals and spreading that the writes queue are added.
proof fn lemma_section_sources(
    a1: MutableChunkAccess,
    a2: MutableChunkAccess,
    pos: ChunkSectionPos,
    sups: Seq<ChunkSectionUpdate>,
    rem1: Seq<(BlockPos, u16)>,
    upd1: Seq<(BlockPos, u16)>,
)
    requires
        a1.inv(),
        a2.inv(),
        lights_valid(a1),
        a1.section_set().contains(pos),
        a2.section_set() == a1.section_set(),
        section_in_range(pos),
        a2.registry_view() == a1.registry_view(),
        a2.lights() == a1.lights(),
        a2.blocks().dom() == a1.blocks().dom(),
        forall|p: BlockPos| #[trigger] a2.blocks().contains_key(p) && section_of(p) != pos ==> a2.blocks()[p] == a1.blocks()[p],
        a2.section_blocks(pos) == apply_updates(a1.section_blocks(pos), sups),
        forall|i: int| 0 <= i < sups.len() ==> in_bounds(#[trigger] sups[i].index),
        distinct_writes(sups),
        sources_before(a1, rem1, upd1, block_emission(a1), false),
        removals_at_least(a1, rem1, false),
        forall|i: int| 0 <= i < upd1.len() ==> section_of((#[trigger] upd1[i]).0) != pos && a1.lights().contains_key(upd1[i].0),
    ensures
        ({
            let l = emitted_light(a2, pos, sups);
            let rem2 = rem1 + concat_steps(l.len() as int, |i: int| block_removal_step(a2, l, i));
            let upd2 = upd1 + concat_steps(l.len() as int, |i: int| block_update_step(a2, l, i));
            &&& sources_before(a2, rem2, upd2, block_emission(a2), false)
            &&& removals_at_least(a2, rem2, false)
            &&& forall|i: int| 0 <= i < upd2.len() ==> a2.lights().contains_key((#[trigger] upd2[i]).0)
                && (i >= upd1.len() ==> section_of(upd2[i].0) == pos)
        }),
{
    let l = emitted_light(a2, pos, sups);
    let rf = |i: int| block_removal_step(a2, l, i);
    let uf = |i: int| block_update_step(a2, l, i);
    let cr = concat_steps(l.len() as int, rf);
    let cu = concat_steps(l.len() as int, uf);
    let rem2 = rem1 + cr;
    let upd2 = upd1 + cu;
    let e1 = block_emission(a1);
    let e2 = block_emission(a2);
    lemma_changed_blocks_written(a1, a2, pos, sups);
    a1.lemma_same_domain();
    a2.lemma_same_domain();
    assert forall|k: int| 0 <= k < l.len() implies (#[trigger] l[k]).0 == block_of(pos, sups[k].index) && first_time(l, k)
        && a2.lights().contains_key(l[k].0) && e2(l[k].0) == l[k].1 && section_of(l[k].0) == pos by {
        lemma_distinct_write_lands(a1, a2, pos, sups, k);
        lemma_block_of_section(pos, sups[k].index);
        assert forall|j: int| 0 <= j < k implies (#[trigger] l[j]).0 != l[k].0 by {
            lemma_block_of_section(pos, sups[j].index);
            assert(flat_index(sups[j].index) != flat_index(sups[k].index));
        }
    }
    assert forall|q: BlockPos| #[trigger] a2.lights().contains_key(q) && light_level(a2.lights()[q], false) > 0
        implies sourced_by(a2, e2, q, false) || queued(rem2, q) || removal_next_to(a2, rem2, q, false) by {
        assert(a1.lights().contains_key(q));
        if queued(rem1, q) {
            lemma_queued_prefix(rem1, cr, q);
        } else if removal_next_to(a1, rem1, q, false) {
            lemma_next_to_append(a1, a2, rem1, cr, q);
        } else if lit_by_nbr(a1, q, false) {
            let k = choose|k: int| 0 <= k < 6 && has_nbr(q, k) && a1.lights().contains_key(#[trigger] nbr(q, k))
                && light_level(a1.lights()[nbr(q, k)], false) >= light_level(a1.lights()[q], false) + 1;
            assert(lit_by_nbr(a2, q, false));
        } else if at_edge(a1, q) {
            let k = choose|k: int| 0 <= k < 6 && #[trigger] super::propagation::missing_nbr(a1, q, k);
            assert(super::propagation::missing_nbr(a2, q, k));
        } else {
            assert(e1(q) >= light_level(a1.lights()[q], false));
            if a2.blocks()[q] != a1.blocks()[q] {
                let k = choose|k: int| 0 <= k < sups.len() && block_of(pos, (#[trigger] sups[k]).index) == q;
                assert(l[k].0 == q && e2(q) == l[k].1 && first_time(l, k));
                if e2(q) < light_level(a2.lights()[q], false) {
                    let prev = light_level(a2.lights()[q], false) as u16;
                    assert(a2.lights()[q].0 < 256);
                    let st = rf(k);
                    let j: int = if transmissive(a2, q) { 1 } else { 0 };
                    assert(st[j] == (q, prev));
                    lemma_concat_queued(l.len() as int, rf, k, j);
                    lemma_queued_suffix(rem1, cr, q);
                }
            }
        }
    }
    assert forall|i: int| 0 <= i < upd2.len() && (#[trigger] upd2[i]).1 > 0 implies upd2[i].1 <= e2(upd2[i].0) by {
        if i < upd1.len() {
            assert(upd2[i] == upd1[i]);
            assert(upd1[i].1 <= e1(upd1[i].0));
            assert(a2.blocks().contains_key(upd1[i].0));
        } else {
            lemma_concat_entry(l.len() as int, uf, i - upd1.len());
            let (k, j) = choose|k: int, j: int| 0 <= k < l.len() && 0 <= j < uf(k).len() && cu[i - upd1.len()] == #[trigger] uf(k)[j];
            assert(uf(k)[j] == l[k]);
        }
    }
    assert forall|i: int| 0 <= i < upd2.len() implies a2.lights().contains_key((#[trigger] upd2[i]).0)
        && (i >= upd1.len() ==> section_of(upd2[i].0) == pos) by {
        if i < upd1.len() {
            assert(upd2[i] == upd1[i]);
        } else {
            lemma_concat_entry(l.len() as int, uf, i - upd1.len());
            let (k, j) = choose|k: int, j: int| 0 <= k < l.len() && 0 <= j < uf(k).len() && cu[i - upd1.len()] == #[trigger] uf(k)[j];
            assert(uf(k)[j] == l[k]);
        }
    }
    assert forall|i: int| 0 <= i < rem2.len() && a2.lights().contains_key((#[trigger] rem2[i]).0)
        implies rem2[i].1 >= light_level(a2.lights()[rem2[i].0], false) by {
        if i < rem1.len() {
            assert(rem2[i] == rem1[i]);
        } else {
            lemma_concat_entry(l.len() as int, rf, i - rem1.len());
            let (k, j) = choose|k: int, j: int| 0 <= k < l.len() && 0 <= j < rf(k).len() && cr[i - rem1.len()] == #[trigger] rf(k)[j];
            let p = l[k].0;
            assert(a2.lights()[p].0 < 256);
            assert(rf(k)[j] == (p, light_level(a2.lights()[p], false) as u16));
        }
    }
}

/// Spreading sky light keeps the block light sourced.
proof fn lemma_block_sourced_frame(a3: MutableChunkAccess, a4: MutableChunkAccess, e: spec_fn(BlockPos) -> int)
    requires
        propagation_frame(a3, a4, true),
        all_sourced(a3, e, false),
        forall|q: BlockPos| #[trigger] a4.lights().contains_key(q) ==> block_emission(a4)(q) == e(q),
    ensures
        all_sourced(a4, block_emission(a4), false),
{
    assert forall|q: BlockPos| #[trigger] a4.lights().contains_key(q) && light_level(a4.lights()[q], false) > 0
        implies sourced_by(a4, block_emission(a4), q, false) by {
        assert(a3.lights().contains_key(q));
        assert(light_level(a4.lights()[q], !true) == light_level(a3.lights()[q], !true));
        if lit_by_nbr(a3, q, false) {
            let k = choose|k: int| 0 <= k < 6 && has_nbr(q, k) && a3.lights().contains_key(#[trigger] nbr(q, k))
                && light_level(a3.lights()[nbr(q, k)], false) >= light_level(a3.lights()[q], false) + 1;
            assert(a4.lights().contains_key(nbr(q, k)));
            assert(light_level(a4.lights()[nbr(q, k)], !true) == light_level(a3.lights()[nbr(q, k)], !true));
            assert(lit_by_nbr(a4, q, false));
        } else if at_edge(a3, q) {
            let k = choose|k: int| 0 <= k < 6 && #[trigger] super::propagation::missing_nbr(a3, q, k);
            assert(super::propagation::missing_nbr(a4, q, k));
        }
    }
}

/// The block lies in the column of sections of `chunk`.
pub open spec fn in_chunk(q: BlockPos, chunk: ChunkPos) -> bool {
    section_of(q).x == chunk.x && section_of(q).z == chunk.z
}

/// Every queued block lies in the column of sections of `chunk`.
pub open spec fn queue_in_chunk(q: Seq<(BlockPos, u16)>, chunk: ChunkPos) -> bool {
    forall|i: int| 0 <= i < q.len() ==> in_chunk((#[trigger] q[i]).0, chunk)
}

/// The block lies in the chunk or in a section marked for rebuilding, or
/// next to such a block.
pub open spec fn near_chunk(a: MutableChunkAccess, chunk: ChunkPos, q: BlockPos) -> bool {
    ||| in_chunk(q, chunk)
    ||| super::propagation::marked(a, q)
    ||| exists|k: int| 0 <= k < 6 && has_nbr(q, k) && (in_chunk(#[trigger] nbr(q, k), chunk) || super::propagation::marked(a, nbr(q, k)))
}

proof fn lemma_concat_in_chunk(n: int, f: spec_fn(int) -> Seq<(BlockPos, u16)>, chunk: ChunkPos)
    requires
        forall|i: int, j: int| 0 <= i < n && 0 <= j < f(i).len() ==> in_chunk((#[trigger] f(i)[j]).0, chunk),
    ensures
        queue_in_chunk(concat_steps(n, f), chunk),
{
    let c = concat_steps(n, f);
    assert forall|k: int| 0 <= k < c.len() implies in_chunk((#[trigger] c[k]).0, chunk) by {
        lemma_concat_entry(n, f, k);
    }
}

proof fn lemma_append_in_chunk(a: Seq<(BlockPos, u16)>, b: Seq<(BlockPos, u16)>, chunk: ChunkPos)
    requires
        queue_in_chunk(a, chunk),
        queue_in_chunk(b, chunk),
    ensures
        queue_in_chunk(a + b, chunk),
{
    assert forall|i: int| 0 <= i < (a + b).len() implies in_chunk(((#[trigger] (a + b)[i])).0, chunk) by {
        if i < a.len() {
            assert((a + b)[i] == a[i]);
        } else {
            assert((a + b)[i] == b[i - a.len()]);
        }
    }
}

/// The light changes that writing a section of `chunk` queues lie in the
/// chunk.
proof fn lemma_section_steps_in_chunk(a: MutableChunkAccess, pos: ChunkSectionPos, ups: Seq<ChunkSectionUpdate>, chunk: ChunkPos)
    requires
        pos == section_at(chunk, pos.y),
        section_in_range(pos),
        forall|i: int| 0 <= i < ups.len() ==> in_bounds(#[trigger] ups[i].index),
    ensures
        ({
            let l = emitted_light(a, pos, ups);
            &&& queue_in_chunk(concat_steps(l.len() as int, |i: int| block_removal_step(a, l, i)), chunk)
            &&& queue_in_chunk(concat_steps(l.len() as int, |i: int| sky_removal_step(a, l, i)), chunk)
            &&& queue_in_chunk(concat_steps(l.len() as int, |i: int| block_update_step(a, l, i)), chunk)
        }),
{
    let l = emitted_light(a, pos, ups);
    assert forall|i: int| 0 <= i < l.len() implies in_chunk((#[trigger] l[i]).0, chunk) by {
        super::section_update::lemma_block_of_section(pos, ups[i].index);
    }
    let f = |i: int| block_removal_step(a, l, i);
    let g = |i: int| sky_removal_step(a, l, i);
    let h = |i: int| block_update_step(a, l, i);
    assert forall|i: int, j: int| 0 <= i < l.len() && 0 <= j < f(i).len() implies in_chunk((#[trigger] f(i)[j]).0, chunk) by {
        assert(f(i)[j].0 == l[i].0);
    }
    assert forall|i: int, j: int| 0 <= i < l.len() && 0 <= j < g(i).len() implies in_chunk((#[trigger] g(i)[j]).0, chunk) by {
        assert(g(i)[j].0 == l[i].0);
    }
    assert forall|i: int, j: int| 0 <= i < l.len() && 0 <= j < h(i).len() implies in_chunk((#[trigger] h(i)[j]).0, chunk) by {
        assert(h(i)[j].0 == l[i].0);
    }
    lemma_concat_in_chunk(l.len() as int, f, chunk);
    lemma_concat_in_chunk(l.len() as int, g, chunk);
    lemma_concat_in_chunk(l.len() as int, h, chunk);
}

/// Writes the blocks of each entry to its section, one section after the
/// other, queueing the light changes of the written blocks.
#[verifier::rlimit(30)]
fn write_sections(
    updates: &[(i32, Vec<ChunkSectionUpdate>)],
    access: &mut MutableChunkAccess,
    ctx: &mut ChunkUpdateContext,
    queues: &mut LightUpdateQueues,
)
    requires
        old(access).inv(),
        lights_valid(*old(access)),
        ids_registered(*old(access)),
        lights_fit(old(access).registry_view()),
        old(ctx).wf(),
        old(queues).wf(),
        chunk_writes_ok(*old(access), old(ctx).chunk, updates@),
        records_ok(old(ctx).block_updates@, old(access).registry_view().len()),
        ready_to_propagate(*old(access), old(queues).block_removal(), old(queues).block_update(), false),
        ready_to_propagate(*old(access), old(queues).sky_removal(), old(queues).sky_update(), true),
        queue_in_chunk(old(queues).block_removal(), old(ctx).chunk),
        queue_in_chunk(old(queues).block_update(), old(ctx).chunk),
        queue_in_chunk(old(queues).sky_removal(), old(ctx).chunk),
        queue_in_chunk(old(queues).sky_update(), old(ctx).chunk),
    ensures
        final(access).inv(),
        lights_valid(*final(access)),
        ids_registered(*final(access)),
        final(ctx).wf(),
        final(queues).wf(),
        final(ctx).chunk == old(ctx).chunk,
        queue_in_chunk(final(queues).block_removal(), old(ctx).chunk),
        queue_in_chunk(final(queues).block_update(), old(ctx).chunk),
        queue_in_chunk(final(queues).sky_removal(), old(ctx).chunk),
        queue_in_chunk(final(queues).sky_update(), old(ctx).chunk),
        final(access).registry_view() == old(access).registry_view(),
        final(access).section_set() == old(access).section_set(),
        final(access).rebuild_set() == old(access).rebuild_set(),
        final(access).lights() == old(access).lights(),
        final(access).blocks().dom() == old(access).blocks().dom(),
        forall|j: int| 0 <= j < updates@.len() ==> #[trigger] final(access).section_blocks(section_at(old(ctx).chunk, updates@[j].0))
            == apply_updates(old(access).section_blocks(section_at(old(ctx).chunk, updates@[j].0)), updates@[j].1@),
        forall|p: BlockPos| #[trigger] final(access).blocks().contains_key(p) && !rewritten(old(ctx).chunk, updates@, updates@.len() as int, section_of(p))
            ==> final(access).blocks()[p] == old(access).blocks()[p],
        final(ctx).block_updates@ == chunk_records(old(ctx).block_updates@, *old(access), old(ctx).chunk, updates@, updates@.len() as int),
        final(ctx).rebuild@ == old(ctx).rebuild@.union(chunk_stale(*old(access), old(ctx).chunk, updates@, updates@.len() as int)),
        records_ok(final(ctx).block_updates@, old(access).registry_view().len()),
        ready_to_propagate(*final(access), final(queues).block_removal(), final(queues).block_update(), false),
        ready_to_propagate(*final(access), final(queues).sky_removal(), final(queues).sky_update(), true),
        all_sourced(*old(access), block_emission(*old(access)), false)
            && (forall|j: int| 0 <= j < updates@.len() ==> distinct_writes(#[trigger] updates@[j].1@))
            && old(queues).block_removal().len() == 0 && old(queues).block_update().len() == 0
            ==> sources_before(*final(access), final(queues).block_removal(), final(queues).block_update(), block_emission(*final(access)), false)
                && removals_at_least(*final(access), final(queues).block_removal(), false),
{
    let ghost a0 = *access;
    let ghost m0 = ctx.block_updates@;
    let ghost r0 = ctx.rebuild@;
    let ghost chunk = ctx.chunk;
    let ghost ups = updates@;
    let ghost good = all_sourced(a0, block_emission(a0), false)
        && (forall|j: int| 0 <= j < updates@.len() ==> distinct_writes(#[trigger] updates@[j].1@))
        && queues.block_removal().len() == 0 && queues.block_update().len() == 0;
    proof {
        if good {
            assert(sources_before(a0, queues.block_removal(), queues.block_update(), block_emission(a0), false));
        }
    }
    let mut i: usize = 0;
    while i < updates.len()
        invariant
            access.inv(),
            lights_valid(*access),
            ids_registered(*access),
            ctx.wf(),
            queues.wf(),
            ctx.chunk == chunk,
            ups == updates@,
            lights_fit(a0.registry_view()),
            chunk_writes_ok(a0, chunk, ups),
            i <= ups.len(),
            access.registry_view() == a0.registry_view(),
            access.section_set() == a0.section_set(),
            access.rebuild_set() == a0.rebuild_set(),
            access.lights() == a0.lights(),
            access.blocks().dom() == a0.blocks().dom(),
            a0.inv(),
            forall|j: int| 0 <= j < i ==> #[trigger] access.section_blocks(section_at(chunk, ups[j].0))
                == apply_updates(a0.section_blocks(section_at(chunk, ups[j].0)), ups[j].1@),
            forall|j: int| i <= j < ups.len() ==> #[trigger] access.section_blocks(section_at(chunk, ups[j].0))
                == a0.section_blocks(section_at(chunk, ups[j].0)),
            forall|p: BlockPos| #[trigger] access.blocks().contains_key(p) && !rewritten(chunk, ups, i as int, section_of(p))
                ==> access.blocks()[p] == a0.blocks()[p],
            ctx.block_updates@ == chunk_records(m0, a0, chunk, ups, i as int),
            ctx.rebuild@ == r0.union(chunk_stale(a0, chunk, ups, i as int)),
            records_ok(ctx.block_updates@, a0.registry_view().len()),
            ready_to_propagate(*access, queues.block_removal(), queues.block_update(), false),
            ready_to_propagate(*access, queues.sky_removal(), queues.sky_update(), true),
            queue_in_chunk(queues.block_removal(), chunk),
            queue_in_chunk(queues.block_update(), chunk),
            queue_in_chunk(queues.sky_removal(), chunk),
            queue_in_chunk(queues.sky_update(), chunk),
            good == (all_sourced(a0, block_emission(a0), false)
                && (forall|j: int| 0 <= j < ups.len() ==> distinct_writes(#[trigger] ups[j].1@))
                && old(queues).block_removal().len() == 0 && old(queues).block_update().len() == 0),
            good ==> sources_before(*access, queues.block_removal(), queues.block_update(), block_emission(*access), false),
            good ==> removals_at_least(*access, queues.block_removal(), false),
            good ==> forall|m: int| 0 <= m < queues.block_update().len() ==> rewritten(chunk, ups, i as int, section_of((#[trigger] queues.block_update()[m]).0))
                && access.lights().contains_key(queues.block_update()[m].0),
        decreases ups.len() - i,
    {
        let ghost a1 = *access;
        let ghost m1 = ctx.block_updates@;
        let ghost q1 = *queues;
        let y = updates[i].0;
        let pos = ChunkSectionPos { x: ctx.chunk.x, y, z: ctx.chunk.z };
        let section_updates = updates[i].1.as_slice();
        proof {
            assert(ups[i as int].1@.len() > 0 && a0.section_set().contains(pos) && section_in_range(pos));
            assert(pos == section_at(chunk, ups[i as int].0));
            assert(a1.section_blocks(pos) == a0.section_blocks(pos));
            assert forall|k: int| 0 <= k < section_updates@.len() implies in_bounds(#[trigger] section_updates@[k].index) by {
                assert(section_updates@[k] == ups[i as int].1@[k]);
            }
            assert forall|k: int| 0 <= k < section_updates@.len() implies (#[trigger] section_updates@[k]).id.0 < access.registry_view().len() by {
                assert(section_updates@[k] == ups[i as int].1@[k]);
            }
        }
        write_chunk_updates_to_section(pos, section_updates, access, ctx, queues);
        proof {
            let sups = section_updates@;
            assert forall|k: int| 0 <= k < sups.len() implies in_bounds(#[trigger] sups[k].index) && sups[k].id.0 < a1.registry_view().len() by {
                assert(sups[k] == ups[i as int].1@[k]);
            }
            lemma_section_ready_sky(a1, *access, pos, sups, q1.sky_removal(), q1.sky_update());
            lemma_section_steps_in_chunk(*access, pos, sups, chunk);
            {
                let l = emitted_light(*access, pos, sups);
                lemma_append_in_chunk(q1.block_removal(), concat_steps(l.len() as int, |i: int| block_removal_step(*access, l, i)), chunk);
                lemma_append_in_chunk(q1.sky_removal(), concat_steps(l.len() as int, |i: int| sky_removal_step(*access, l, i)), chunk);
                lemma_append_in_chunk(q1.block_update(), concat_steps(l.len() as int, |i: int| block_update_step(*access, l, i)), chunk);
            }
            lemma_section_ready_block(a1, *access, pos, sups, q1.block_removal(), q1.block_update());
            if good {
                assert(distinct_writes(sups));
                assert forall|m: int| 0 <= m < q1.block_update().len() implies section_of((#[trigger] q1.block_update()[m]).0) != pos
                    && a1.lights().contains_key(q1.block_update()[m].0) by {
                    if section_of(q1.block_update()[m].0) == pos {
                        let j = choose|j: int| 0 <= j < i && #[trigger] section_at(chunk, ups[j].0) == section_of(q1.block_update()[m].0);
                        assert(ups[j].0 != ups[i as int].0);
                    }
                }
                lemma_section_sources(a1, *access, pos, sups, q1.block_removal(), q1.block_update());
                assert forall|m: int| 0 <= m < queues.block_update().len() implies rewritten(chunk, ups, i + 1, section_of((#[trigger] queues.block_update()[m]).0))
                    && access.lights().contains_key(queues.block_update()[m].0) by {
                    if m < q1.block_update().len() {
                        assert(queues.block_update()[m] == q1.block_update()[m]);
                        let j = choose|j: int| 0 <= j < i && #[trigger] section_at(chunk, ups[j].0) == section_of(q1.block_update()[m].0);
                        assert(section_at(chunk, ups[j].0) == section_of(queues.block_update()[m].0));
                    } else {
                        assert(section_at(chunk, ups[i as int].0) == section_of(queues.block_update()[m].0));
                    }
                }
            }
            // sections other than this one keep their blocks
            assert forall|j: int| 0 <= j < ups.len() && j != i implies #[trigger] access.section_blocks(section_at(chunk, ups[j].0))
                == a1.section_blocks(section_at(chunk, ups[j].0)) by {
                let q = section_at(chunk, ups[j].0);
                lemma_sections_distinct(chunk, ups, a0, i as int, j);
                assert(a0.section_set().contains(q) && section_in_range(q));
                assert forall|p: BlockPos| section_of(p) == q implies #[trigger] a1.blocks()[p] == access.blocks()[p] by {
                    a1.lemma_holds(p);
                    access.lemma_holds(p);
                }
                lemma_section_blocks_from_blocks(a1, *access, q);
            }
            assert forall|p: BlockPos| #[trigger] access.blocks().contains_key(p) && !rewritten(chunk, ups, i + 1, section_of(p))
                implies access.blocks()[p] == a0.blocks()[p] by {
                if section_of(p) == pos {
                    assert(section_at(chunk, ups[i as int].0) == section_of(p));
                }
                if rewritten(chunk, ups, i as int, section_of(p)) {
                    let j = choose|j: int| 0 <= j < i && #[trigger] section_at(chunk, ups[j].0) == section_of(p);
                    assert(section_at(chunk, ups[j].0) == section_of(p));
                }
            }
            // what is recorded
            lemma_section_blocks_registered(a1, pos);
            assert forall|b: BlockPos| #[trigger] m1.contains_key(b) implies m1[b].old_id.0 < a1.registry_view().len() && m1[b].new_id.0 < a1.registry_view().len() by {}
            lemma_recorded_facts(m1, a1.section_blocks(pos), sups, pos, a1.registry_view().len());
            assert forall|b: BlockPos| #[trigger] ctx.block_updates@.contains_key(b) implies ctx.block_updates@[b].old_id.0 < a0.registry_view().len()
                && ctx.block_updates@[b].new_id.0 < a0.registry_view().len() && i32::MIN + 1 < b.y < i32::MAX - 2 by {
                if !m1.contains_key(b) {
                    let k = choose|k: int| 0 <= k < sups.len() && block_of(pos, (#[trigger] sups[k]).index) == b;
                    lemma_block_of_height(pos, sups[k].index);
                }
            }
            assert(ctx.rebuild@ =~= r0.union(chunk_stale(a0, chunk, ups, i + 1)));
        }
        i += 1;
    }
}

/// The column of its chunk that a block lies in.
pub open spec fn column_of(p: BlockPos) -> int {
    32 * (p.x as int % 32) + p.z as int % 32
}

/// The change makes its block stop letting light through, or start to.
pub open spec fn turns(r: BlockRegistry, u: BlockUpdate) -> bool {
    r.entry(u.old_id.0 as int).properties.light_transmissible != r.entry(u.new_id.0 as int).properties.light_transmissible
}

/// The block after the change stops sky light.
pub open spec fn now_solid(r: BlockRegistry, u: BlockUpdate) -> bool {
    !r.entry(u.new_id.0 as int).properties.light_transmissible
}

/// The recorded change of `b` turns the block at height `y` of column `c`.
pub open spec fn turned(r: BlockRegistry, m: Map<BlockPos, BlockUpdate>, b: BlockPos, c: usize, y: i32) -> bool {
    &&& m.contains_key(b)
    &&& column_of(b) == c
    &&& b.y == y
    &&& turns(r, m[b])
}

/// Some recorded change turns the block at height `y` of column `c`.
pub open spec fn column_turned(r: BlockRegistry, m: Map<BlockPos, BlockUpdate>, c: usize, y: i32) -> bool {
    exists|b: BlockPos| #[trigger] turned(r, m, b, c, y)
}

/// Entry `k` of the kept changes turns the block at height `y` of column `c`.
spec fn turns_at(r: BlockRegistry, ks: Seq<BlockPos>, vs: Seq<BlockUpdate>, k: int, c: usize, y: i32) -> bool {
    &&& column_of(ks[k]) == c
    &&& ks[k].y == y
    &&& turns(r, vs[k])
}

/// For each column, the heights whose blocks the recorded changes turn, each
/// with whether it now stops sky light.
#[verifier::rlimit(30)]
fn column_changes(registry: &BlockRegistry, changes: &VecMap<BlockPos, BlockUpdate>) -> (r: VecMap<usize, VecMap<i32, bool>>)
    requires
        changes.wf(),
        records_ok(changes@, registry.len()),
    ensures
        r.wf(),
        forall|c: usize| #[trigger] r@.contains_key(c) ==> c < 1024 && r@[c].wf()
            && forall|y: i32| #[trigger] r@[c]@.contains_key(y) ==> i32::MIN < y < i32::MAX - 1,
        forall|b: BlockPos, c: usize, y: i32| #[trigger] turned(*registry, changes@, b, c, y) ==> r@.contains_key(c) && r@[c]@.contains_key(y),
        forall|c: usize, y: i32| r@.contains_key(c) && #[trigger] r@[c]@.contains_key(y)
            ==> exists|b: BlockPos| #[trigger] turned(*registry, changes@, b, c, y) && r@[c]@[y] == now_solid(*registry, changes@[b]),
{
    let ghost reg = *registry;
    let ks = changes.keys();
    let vs = changes.values();
    let mut r: VecMap<usize, VecMap<i32, bool>> = VecMap::new();
    let mut i: usize = 0;
    while i < ks.len()
        invariant
            changes.wf(),
            records_ok(changes@, reg.len()),
            reg == *registry,
            ks@ == changes.key_seq(),
            vs@ == changes.val_seq(),
            i <= ks@.len(),
            r.wf(),
            forall|c: usize| #[trigger] r@.contains_key(c) ==> c < 1024 && r@[c].wf()
                && forall|y: i32| #[trigger] r@[c]@.contains_key(y) ==> i32::MIN < y < i32::MAX - 1,
            forall|k: int, c: usize, y: i32| 0 <= k < i && #[trigger] turns_at(reg, ks@, vs@, k, c, y) ==> r@.contains_key(c) && r@[c]@.contains_key(y),
            forall|c: usize, y: i32| r@.contains_key(c) && #[trigger] r@[c]@.contains_key(y)
                ==> exists|k: int| 0 <= k < i && #[trigger] turns_at(reg, ks@, vs@, k, c, y) && r@[c]@[y] == now_solid(reg, vs@[k]),
        decreases ks@.len() - i,
    {
        proof {
            changes.lemma_values();
            assert(changes@.contains_key(ks@[i as int]));
        }
        let p = ks[i];
        let u = vs[i];
        let was_open = registry.light_transmissible(u.old_id);
        let is_open = registry.light_transmissible(u.new_id);
        let ghost r0 = r;
        if was_open != is_open {
            let x = pos_to_index(p.x);
            let z = pos_to_index(p.z);
            let c = CHUNK_LENGTH * x + z;
            let mut column = match r.remove(&c) {
                Some(m) => m,
                None => VecMap::new(),
            };
            let ghost col0 = column;
            column.insert(p.y, !is_open);
            r.insert(c, column);
            proof {
                assert(turns_at(reg, ks@, vs@, i as int, c, p.y));
                assert forall|c1: usize| #[trigger] r@.contains_key(c1) implies c1 < 1024 && r@[c1].wf()
                    && forall|y: i32| #[trigger] r@[c1]@.contains_key(y) ==> i32::MIN < y < i32::MAX - 1 by {
                    if c1 != c {
                        assert(r0@.contains_key(c1));
                    } else {
                        assert forall|y: i32| #[trigger] r@[c1]@.contains_key(y) implies i32::MIN < y < i32::MAX - 1 by {
                            if y != p.y {
                                assert(col0@.contains_key(y));
                                assert(r0@.contains_key(c));
                            }
                        }
                    }
                }
                assert forall|k: int, c1: usize, y: i32| 0 <= k < i + 1 && #[trigger] turns_at(reg, ks@, vs@, k, c1, y)
                    implies r@.contains_key(c1) && r@[c1]@.contains_key(y) by {
                    if c1 == c && y == p.y {
                    } else {
                        assert(k != i);
                        assert(r0@.contains_key(c1) && r0@[c1]@.contains_key(y));
                        if c1 == c {
                            assert(col0@.contains_key(y));
                        }
                    }
                }
                assert forall|c1: usize, y: i32| r@.contains_key(c1) && #[trigger] r@[c1]@.contains_key(y)
                    implies exists|k: int| 0 <= k < i + 1 && #[trigger] turns_at(reg, ks@, vs@, k, c1, y) && r@[c1]@[y] == now_solid(reg, vs@[k]) by {
                    if c1 == c && y == p.y {
                        assert(turns_at(reg, ks@, vs@, i as int, c1, y) && r@[c1]@[y] == now_solid(reg, vs@[i as int]));
                    } else {
                        assert(r0@.contains_key(c1) && r0@[c1]@.contains_key(y));
                        assert(r@[c1]@[y] == r0@[c1]@[y]);
                        let k = choose|k: int| 0 <= k < i && #[trigger] turns_at(reg, ks@, vs@, k, c1, y) && r0@[c1]@[y] == now_solid(reg, vs@[k]);
                        assert(turns_at(reg, ks@, vs@, k, c1, y));
                    }
                }
            }
        } else {
            proof {
                assert forall|k: int, c1: usize, y: i32| 0 <= k < i + 1 && #[trigger] turns_at(reg, ks@, vs@, k, c1, y)
                    implies r@.contains_key(c1) && r@[c1]@.contains_key(y) by {
                    assert(k != i);
                }
                assert forall|c1: usize, y: i32| r@.contains_key(c1) && #[trigger] r@[c1]@.contains_key(y)
                    implies exists|k: int| 0 <= k < i + 1 && #[trigger] turns_at(reg, ks@, vs@, k, c1, y) && r@[c1]@[y] == now_solid(reg, vs@[k]) by {
                    let k = choose|k: int| 0 <= k < i && #[trigger] turns_at(reg, ks@, vs@, k, c1, y) && r@[c1]@[y] == now_solid(reg, vs@[k]);
                    assert(turns_at(reg, ks@, vs@, k, c1, y));
                }
            }
        }
        i += 1;
    }
    proof {
        changes.lemma_values();
        assert forall|b: BlockPos, c: usize, y: i32| #[trigger] turned(*registry, changes@, b, c, y) implies r@.contains_key(c) && r@[c]@.contains_key(y) by {
            let k = choose|k: int| 0 <= k < ks@.len() && ks@[k] == b;
            assert(changes@.contains_key(ks@[k]));
            assert(turns_at(reg, ks@, vs@, k, c, y));
        }
        assert forall|c: usize, y: i32| r@.contains_key(c) && #[trigger] r@[c]@.contains_key(y)
            implies exists|b: BlockPos| #[trigger] turned(*registry, changes@, b, c, y) && r@[c]@[y] == now_solid(*registry, changes@[b]) by {
            let k = choose|k: int| 0 <= k < i && #[trigger] turns_at(reg, ks@, vs@, k, c, y) && r@[c]@[y] == now_solid(reg, vs@[k]);
            assert(changes@.contains_key(ks@[k]));
            assert(turned(reg, changes@, ks@[k], c, y));
        }
    }
    r
}

/// Makes each height that `changes` names solid or open, as it says.
fn apply_column(node: &mut SkyLightNode, changes: &VecMap<i32, bool>)
    requires
        node_wf(old(node)@),
        changes.wf(),
        forall|y: i32| #[trigger] changes@.contains_key(y) ==> i32::MIN < y < i32::MAX - 1,
    ensures
        node_wf(final(node)@),
        forall|y: i32| #[trigger] changes@.contains_key(y) ==> solid_at(final(node)@, y as int) == changes@[y],
        forall|z: int| !(i32::MIN <= z <= i32::MAX && changes@.contains_key(z as i32)) ==> #[trigger] solid_at(final(node)@, z) == solid_at(old(node)@, z),
{
    let ghost s0 = node@;
    let ks = changes.keys();
    let vs = changes.values();
    proof {
        changes.lemma_values();
    }
    let mut j: usize = 0;
    while j < ks.len()
        invariant
            changes.wf(),
            ks@ == changes.key_seq(),
            vs@ == changes.val_seq(),
            forall|i: int| 0 <= i < ks@.len() ==> #[trigger] changes@.contains_key(ks@[i]) && changes@[ks@[i]] == vs@[i],
            forall|y: i32| #[trigger] changes@.contains_key(y) ==> i32::MIN < y < i32::MAX - 1,
            j <= ks@.len(),
            node_wf(node@),
            forall|k: int| 0 <= k < j ==> solid_at(node@, #[trigger] ks@[k] as int) == vs@[k],
            forall|z: int| #[trigger] solid_at(node@, z) == solid_at(s0, z) || exists|k: int| 0 <= k < j && ks@[k] == z,
        decreases ks@.len() - j,
    {
        let ghost prev = node@;
        assert(changes@.contains_key(ks@[j as int]));
        node.update(ks[j], vs[j]);
        proof {
            assert forall|k: int| 0 <= k < j + 1 implies solid_at(node@, #[trigger] ks@[k] as int) == vs@[k] by {
                if k < j {
                    assert(ks@[k] != ks@[j as int]);
                    assert(solid_at(prev, ks@[k] as int) == vs@[k]);
                }
            }
            assert forall|z: int| #[trigger] solid_at(node@, z) == solid_at(s0, z) || exists|k: int| 0 <= k < j + 1 && ks@[k] == z by {
                if z == ks@[j as int] {
                    assert(ks@[j as int] == z);
                } else {
                    assert(solid_at(node@, z) == solid_at(prev, z));
                    if !(solid_at(prev, z) == solid_at(s0, z)) {
                        let k = choose|k: int| 0 <= k < j && ks@[k] == z;
                        assert(0 <= k < j + 1 && ks@[k] == z);
                    }
                }
            }
        }
        j += 1;
    }
    proof {
        assert forall|y: i32| #[trigger] changes@.contains_key(y) implies solid_at(node@, y as int) == changes@[y] by {
            let k = choose|k: int| 0 <= k < ks@.len() && ks@[k] == y;
            assert(solid_at(node@, ks@[k] as int) == vs@[k]);
        }
        assert forall|z: int| !(i32::MIN <= z <= i32::MAX && changes@.contains_key(z as i32)) implies #[trigger] solid_at(node@, z) == solid_at(s0, z) by {
            if !(solid_at(node@, z) == solid_at(s0, z)) {
                let k = choose|k: int| 0 <= k < j && ks@[k] == z;
                assert(changes@.contains_key(ks@[k]));
                assert(ks@[k] as int == z);
            }
        }
    }
}

/// The world column of the entry lies in `chunk`.
pub open spec fn column_in_chunk(m: (i32, i32, i32, i32, u16), chunk: ChunkPos) -> bool {
    &&& 32 * chunk.x <= m.0 < 32 * chunk.x + 32
    &&& 32 * chunk.z <= m.1 < 32 * chunk.z + 32
}

proof fn lemma_column_block_in_chunk(m: (i32, i32, i32, i32, u16), chunk: ChunkPos, y: int)
    requires
        column_in_chunk(m, chunk),
    ensures
        in_chunk(column_block(m.0, m.1, y), chunk),
{
    let x = m.0 as int;
    let z = m.1 as int;
    let cx = chunk.x as int;
    let cz = chunk.z as int;
    assert(x / 32 == cx) by (nonlinear_arith)
        requires 32 * cx <= x < 32 * cx + 32;
    assert(z / 32 == cz) by (nonlinear_arith)
        requires 32 * cz <= z < 32 * cz + 32;
}

/// The sky light changes queued for columns of `chunk` lie in `chunk`.
proof fn lemma_moved_in_chunk(a: MutableChunkAccess, moved: Seq<(i32, i32, i32, i32, u16)>, n: int, chunk: ChunkPos)
    requires
        0 <= n <= moved.len(),
        forall|i: int| 0 <= i < moved.len() ==> column_in_chunk(#[trigger] moved[i], chunk),
    ensures
        queue_in_chunk(moved_removals(a, moved, n), chunk),
        queue_in_chunk(moved_updates(a, moved, n), chunk),
    decreases n,
{
    if n > 0 {
        lemma_moved_in_chunk(a, moved, n - 1, chunk);
        let m = moved[n - 1];
        assert(column_in_chunk(m, chunk));
        let rs = |k: int| super::propagation::sky_column_removal_step(a, m.0, m.1, m.2, m.4, k);
        let us = |k: int| super::propagation::sky_column_update_step(a, m.0, m.1, m.2, m.4, k);
        assert forall|i: int, j: int| 0 <= i < m.3 - m.2 && 0 <= j < rs(i).len() implies in_chunk((#[trigger] rs(i)[j]).0, chunk) by {
            lemma_column_block_in_chunk(m, chunk, m.2 + i);
        }
        assert forall|i: int, j: int| 0 <= i < m.3 - m.2 && 0 <= j < us(i).len() implies in_chunk((#[trigger] us(i)[j]).0, chunk) by {
            lemma_column_block_in_chunk(m, chunk, m.2 + i);
        }
        lemma_concat_in_chunk(m.3 - m.2, rs, chunk);
        lemma_concat_in_chunk(m.3 - m.2, us, chunk);
        lemma_append_in_chunk(moved_removals(a, moved, n - 1), concat_steps(m.3 - m.2, rs), chunk);
        lemma_append_in_chunk(moved_updates(a, moved, n - 1), concat_steps(m.3 - m.2, us), chunk);
    }
}

/// What spreading from queues of blocks in `chunk` reaches is near `chunk`.
proof fn lemma_reached_near(a: MutableChunkAccess, r: Seq<(BlockPos, u16)>, u: Seq<(BlockPos, u16)>, chunk: ChunkPos, q: BlockPos)
    requires
        queue_in_chunk(r, chunk),
        queue_in_chunk(u, chunk),
        super::propagation::reached(a, r, u, q),
    ensures
        near_chunk(a, chunk, q),
{
    if super::propagation::queued(r, q) {
        let i = choose|i: int| 0 <= i < r.len() && (#[trigger] r[i]).0 == q;
        assert(in_chunk(r[i].0, chunk));
    } else if super::propagation::queued(u, q) {
        let i = choose|i: int| 0 <= i < u.len() && (#[trigger] u[i]).0 == q;
        assert(in_chunk(u[i].0, chunk));
    } else if !super::propagation::marked(a, q) {
        let k = choose|k: int| 0 <= k < 6 && has_nbr(q, k)
            && (super::propagation::queued(r, #[trigger] nbr(q, k)) || super::propagation::marked(a, nbr(q, k)));
        if super::propagation::queued(r, nbr(q, k)) {
            let i = choose|i: int| 0 <= i < r.len() && (#[trigger] r[i]).0 == nbr(q, k);
            assert(in_chunk(r[i].0, chunk));
        }
    }
}

/// Every block of column `(x, z)` from height `min_y` up to, not including,
/// `max_y` is held.
fn column_held(access: &MutableChunkAccess, x: i32, z: i32, min_y: i32, max_y: i32) -> (r: bool)
    requires
        access.inv(),
        min_y <= max_y,
    ensures
        r == forall|y: int| min_y <= y < max_y ==> access.lights().contains_key(#[trigger] column_block(x, z, y)),
{
    let mut y = min_y;
    while y < max_y
        invariant
            access.inv(),
            min_y <= y <= max_y,
            forall|w: int| min_y <= w < y ==> access.lights().contains_key(#[trigger] column_block(x, z, w)),
        decreases max_y - y,
    {
        let pos = BlockPos { x, y, z };
        assert(column_block(x, z, y as int) == pos);
        if access.light(pos).is_none() {
            return false;
        }
        y += 1;
    }
    true
}

/// Updates the sky light columns of the chunk from the recorded block
/// changes that turn a block, and gives, for each column whose top moved,
/// the world column, the heights between the old and the new top, and the
/// sky level those heights take.
#[verifier::rlimit(40)]
fn update_sky_columns(
    sky: &mut SkyLightColumns,
    registry: &BlockRegistry,
    changes: &VecMap<BlockPos, BlockUpdate>,
    chunk: ChunkPos,
) -> (moved: Vec<(i32, i32, i32, i32, u16)>)
    requires
        changes.wf(),
        records_ok(changes@, registry.len()),
        old(sky)@.len() == 1024,
        forall|c: int| 0 <= c < 1024 ==> node_wf(#[trigger] old(sky)@[c]),
        -0x400_0000 < chunk.x < 0x3ff_ffff,
        -0x400_0000 < chunk.z < 0x3ff_ffff,
    ensures
        final(sky)@.len() == 1024,
        forall|c: int| 0 <= c < 1024 ==> node_wf(#[trigger] final(sky)@[c]),
        forall|c: usize, y: i32| c < 1024 && #[trigger] column_turned(*registry, changes@, c, y)
            ==> exists|b: BlockPos| #[trigger] turned(*registry, changes@, b, c, y) && solid_at(final(sky)@[c as int], y as int) == now_solid(*registry, changes@[b]),
        forall|c: usize, y: i32| c < 1024 && !column_turned(*registry, changes@, c, y)
            ==> #[trigger] solid_at(final(sky)@[c as int], y as int) == solid_at(old(sky)@[c as int], y as int),
        forall|i: int| 0 <= i < moved@.len() ==> (#[trigger] moved@[i]).2 <= moved@[i].3 && moved@[i].4 <= 15,
        forall|i: int| 0 <= i < moved@.len() ==> column_in_chunk(#[trigger] moved@[i], chunk),
{
    let ghost sky0 = sky@;
    let cols = column_changes(registry, changes);
    let ck = cols.keys();
    let cv = cols.values();
    proof {
        cols.lemma_values();
    }
    let mut moved: Vec<(i32, i32, i32, i32, u16)> = Vec::new();
    let mut j: usize = 0;
    while j < ck.len()
        invariant
            cols.wf(),
            ck@ == cols.key_seq(),
            cv@ == cols.val_seq(),
            forall|i: int| 0 <= i < ck@.len() ==> #[trigger] cols@.contains_key(ck@[i]) && cols@[ck@[i]] == cv@[i],
            forall|c: usize| #[trigger] cols@.contains_key(c) ==> c < 1024 && cols@[c].wf()
                && forall|y: i32| #[trigger] cols@[c]@.contains_key(y) ==> i32::MIN < y < i32::MAX - 1,
            -0x400_0000 < chunk.x < 0x3ff_ffff,
            -0x400_0000 < chunk.z < 0x3ff_ffff,
            j <= ck@.len(),
            sky@.len() == 1024,
            forall|c: int| 0 <= c < 1024 ==> node_wf(#[trigger] sky@[c]),
            forall|k: int, y: i32| 0 <= k < j && #[trigger] cv@[k]@.contains_key(y) ==> solid_at(sky@[ck@[k] as int], y as int) == cv@[k]@[y],
            forall|k: int, z: int| 0 <= k < j && !(i32::MIN <= z <= i32::MAX && cv@[k]@.contains_key(z as i32))
                ==> #[trigger] solid_at(sky@[ck@[k] as int], z) == solid_at(sky0[ck@[k] as int], z),
            forall|c: int| 0 <= c < 1024 && !(exists|k: int| 0 <= k < j && ck@[k] == c) ==> #[trigger] sky@[c] == sky0[c],
            forall|i: int| 0 <= i < moved@.len() ==> (#[trigger] moved@[i]).2 <= moved@[i].3 && moved@[i].4 <= 15,
            forall|i: int| 0 <= i < moved@.len() ==> column_in_chunk(#[trigger] moved@[i], chunk),
        decreases ck@.len() - j,
    {
        let c = ck[j];
        proof {
            assert(cols@.contains_key(ck@[j as int]));
        }
        let x = c / CHUNK_LENGTH;
        let z = c % CHUNK_LENGTH;
        assert(CHUNK_LENGTH * x + z == c && x < 32 && z < 32) by (nonlinear_arith)
            requires x == c / 32, z == c % 32, c < 1024, CHUNK_LENGTH == 32;
        let ghost before = sky@;
        let prev_top = sky.node(x, z).top();
        let node = sky.node_mut(x, z);
        let ghost node0 = node@;
        apply_column(node, &cv[j]);
        let ghost node1 = node@;
        proof {
            assert(node0 == before[c as int]);
        }
        let new_top = sky.node(x, z).top();
        proof {
            let cj = ck@[j as int] as int;
            assert(sky@ == before.update(cj, node1));
            assert forall|k: int, y: i32| 0 <= k < j + 1 && #[trigger] cv@[k]@.contains_key(y) implies solid_at(sky@[ck@[k] as int], y as int) == cv@[k]@[y] by {
                if k < j {
                    assert(ck@[k] != ck@[j as int]);
                    assert(cols@.contains_key(ck@[k]));
                    assert(sky@[ck@[k] as int] == before[ck@[k] as int]);
                } else {
                    assert(cv@[j as int]@.contains_key(y));
                    assert(solid_at(node1, y as int) == cv@[j as int]@[y]);
                }
            }
            assert forall|k: int, z1: int| 0 <= k < j + 1 && !(i32::MIN <= z1 <= i32::MAX && cv@[k]@.contains_key(z1 as i32))
                implies #[trigger] solid_at(sky@[ck@[k] as int], z1) == solid_at(sky0[ck@[k] as int], z1) by {
                if k < j {
                    assert(ck@[k] != ck@[j as int]);
                    assert(cols@.contains_key(ck@[k]));
                    assert(sky@[ck@[k] as int] == before[ck@[k] as int]);
                } else {
                    assert(!(exists|k2: int| 0 <= k2 < j && ck@[k2] == cj)) by {
                        if exists|k2: int| 0 <= k2 < j && ck@[k2] == cj {
                            let k2 = choose|k2: int| 0 <= k2 < j && ck@[k2] == cj;
                            assert(ck@[k2] != ck@[j as int]);
                        }
                    }
                    assert(before[cj] == sky0[cj]);
                }
            }
            assert forall|c1: int| 0 <= c1 < 1024 && !(exists|k: int| 0 <= k < j + 1 && ck@[k] == c1) implies #[trigger] sky@[c1] == sky0[c1] by {
                assert(!(exists|k: int| 0 <= k < j && ck@[k] == c1)) by {
                    if exists|k: int| 0 <= k < j && ck@[k] == c1 {
                        let k = choose|k: int| 0 <= k < j && ck@[k] == c1;
                        assert(0 <= k < j + 1 && ck@[k] == c1);
                    }
                }
                assert(c1 != cj);
            }
        }
        if prev_top != new_top {
            let wx = 32i32 * chunk.x + x as i32;
            let wz = 32i32 * chunk.z + z as i32;
            let (min_y, max_y) = if prev_top < new_top {
                (prev_top, new_top)
            } else {
                (new_top, prev_top)
            };
            let light: u16 = if new_top > prev_top {
                0
            } else {
                15
            };
            moved.push((wx, wz, min_y, max_y, light));
        }
        j += 1;
    }
    proof {
        assert forall|c: usize, y: i32| c < 1024 && #[trigger] column_turned(*registry, changes@, c, y)
            implies exists|b: BlockPos| #[trigger] turned(*registry, changes@, b, c, y) && solid_at(sky@[c as int], y as int) == now_solid(*registry, changes@[b]) by {
            let b0 = choose|b: BlockPos| #[trigger] turned(*registry, changes@, b, c, y);
            assert(cols@.contains_key(c) && cols@[c]@.contains_key(y));
            let k = choose|k: int| 0 <= k < ck@.len() && ck@[k] == c;
            assert(cols@[ck@[k]] == cv@[k]);
            assert(cv@[k]@.contains_key(y));
        }
        assert forall|c: usize, y: i32| c < 1024 && !column_turned(*registry, changes@, c, y)
            implies #[trigger] solid_at(sky@[c as int], y as int) == solid_at(sky0[c as int], y as int) by {
            if exists|k: int| 0 <= k < j && ck@[k] == c {
                let k = choose|k: int| 0 <= k < j && ck@[k] == c;
                assert(cols@.contains_key(ck@[k]) && cols@[ck@[k]] == cv@[k]);
                if cv@[k]@.contains_key(y) {
                    assert(cols@[c]@.contains_key(y));
                    let b = choose|b: BlockPos| #[trigger] turned(*registry, changes@, b, c, y) && cols@[c]@[y] == now_solid(*registry, changes@[b]);
                    assert(column_turned(*registry, changes@, c, y));
                }
                assert(solid_at(sky@[ck@[k] as int], y as int) == solid_at(sky0[ck@[k] as int], y as int));
            } else {
                assert(sky@[c as int] == sky0[c as int]);
            }
        }
    }
    moved
}

/// The blocks of column `(x, z)` from height `min_y` up to, not including,
/// `max_y` are held.
pub open spec fn moved_column_held(a: MutableChunkAccess, m: (i32, i32, i32, i32, u16)) -> bool {
    forall|y: int| m.2 <= y < m.3 ==> a.lights().contains_key(#[trigger] column_block(m.0, m.1, y))
}

/// Every moved column is held between its old and its new top.
fn columns_held(access: &MutableChunkAccess, moved: &Vec<(i32, i32, i32, i32, u16)>) -> (r: bool)
    requires
        access.inv(),
        forall|i: int| 0 <= i < moved@.len() ==> (#[trigger] moved@[i]).2 <= moved@[i].3,
    ensures
        r == forall|i: int| 0 <= i < moved@.len() ==> moved_column_held(*access, #[trigger] moved@[i]),
{
    let mut k: usize = 0;
    while k < moved.len()
        invariant
            access.inv(),
            k <= moved@.len(),
            forall|i: int| 0 <= i < moved@.len() ==> (#[trigger] moved@[i]).2 <= moved@[i].3,
            forall|i: int| 0 <= i < k ==> moved_column_held(*access, #[trigger] moved@[i]),
        decreases moved@.len() - k,
    {
        let (x, z, min_y, max_y, _) = moved[k];
        assert(moved@[k as int].2 <= moved@[k as int].3);
        if !column_held(access, x, z, min_y, max_y) {
            assert(!moved_column_held(*access, moved@[k as int]));
            return false;
        }
        k += 1;
    }
    true
}

/// The sky light removals that queueing the first `n` moved columns adds.
pub open spec fn moved_removals(a: MutableChunkAccess, moved: Seq<(i32, i32, i32, i32, u16)>, n: int) -> Seq<(BlockPos, u16)>
    decreases n,
{
    if n <= 0 {
        Seq::empty()
    } else {
        let m = moved[n - 1];
        moved_removals(a, moved, n - 1) + concat_steps(m.3 - m.2, |k: int| super::propagation::sky_column_removal_step(a, m.0, m.1, m.2, m.4, k))
    }
}

/// The sky light spreading that queueing the first `n` moved columns adds.
pub open spec fn moved_updates(a: MutableChunkAccess, moved: Seq<(i32, i32, i32, i32, u16)>, n: int) -> Seq<(BlockPos, u16)>
    decreases n,
{
    if n <= 0 {
        Seq::empty()
    } else {
        let m = moved[n - 1];
        moved_updates(a, moved, n - 1) + concat_steps(m.3 - m.2, |k: int| super::propagation::sky_column_update_step(a, m.0, m.1, m.2, m.4, k))
    }
}

/// Queues the sky light changes of each moved column: its heights between
/// the old and the new top take the level the entry gives.
fn queue_moved_columns(queues: &mut LightUpdateQueues, access: &MutableChunkAccess, moved: &Vec<(i32, i32, i32, i32, u16)>)
    requires
        access.inv(),
        lights_valid(*access),
        old(queues).wf(),
        forall|i: int| 0 <= i < moved@.len() ==> moved_column_held(*access, #[trigger] moved@[i]),
        forall|i: int| 0 <= i < moved@.len() ==> (#[trigger] moved@[i]).4 <= 15,
        ready_to_propagate(*access, old(queues).block_removal(), old(queues).block_update(), false),
        ready_to_propagate(*access, old(queues).sky_removal(), old(queues).sky_update(), true),
    ensures
        final(queues).wf(),
        final(queues).block_removal() == old(queues).block_removal(),
        final(queues).block_update() == old(queues).block_update(),
        final(queues).sky_removal() == old(queues).sky_removal() + moved_removals(*access, moved@, moved@.len() as int),
        final(queues).sky_update() == old(queues).sky_update() + moved_updates(*access, moved@, moved@.len() as int),
        ready_to_propagate(*access, final(queues).block_removal(), final(queues).block_update(), false),
        ready_to_propagate(*access, final(queues).sky_removal(), final(queues).sky_update(), true),
{
    let ghost q_start = *queues;
    let mut k: usize = 0;
    while k < moved.len()
        invariant
            access.inv(),
            lights_valid(*access),
            k <= moved@.len(),
            queues.wf(),
            forall|i: int| 0 <= i < moved@.len() ==> moved_column_held(*access, #[trigger] moved@[i]),
            forall|i: int| 0 <= i < moved@.len() ==> (#[trigger] moved@[i]).4 <= 15,
            ready_to_propagate(*access, queues.block_removal(), queues.block_update(), false),
            ready_to_propagate(*access, queues.sky_removal(), queues.sky_update(), true),
            q_start == *old(queues),
            queues.block_removal() == q_start.block_removal(),
            queues.block_update() == q_start.block_update(),
            queues.sky_removal() == q_start.sky_removal() + moved_removals(*access, moved@, k as int),
            queues.sky_update() == q_start.sky_update() + moved_updates(*access, moved@, k as int),
        decreases moved@.len() - k,
    {
        let (x, z, min_y, max_y, light) = moved[k];
        let ghost q0 = *queues;
        proof {
            assert(moved_column_held(*access, moved@[k as int]));
            assert(moved@[k as int].4 <= 15);
        }
        queues.queue_skylight_updates(access, x, z, min_y, max_y, light);
        proof {
            let us = |i: int| super::propagation::sky_column_update_step(*access, x, z, min_y, light, i);
            let rs = |i: int| super::propagation::sky_column_removal_step(*access, x, z, min_y, light, i);
            let u = concat_steps(max_y - min_y, us);
            assert forall|i: int| 0 <= i < u.len() implies (#[trigger] u[i]).1 <= 15 by {
                lemma_concat_entry(max_y - min_y, us, i);
            }
            lemma_ready_extend(*access, q0.sky_removal(), q0.sky_update(), concat_steps(max_y - min_y, rs), u, true);
            let m = moved@[k as int];
            assert(rs =~= (|j: int| super::propagation::sky_column_removal_step(*access, m.0, m.1, m.2, m.4, j)));
            assert(us =~= (|j: int| super::propagation::sky_column_update_step(*access, m.0, m.1, m.2, m.4, j)));
            assert(queues.sky_removal() =~= q_start.sky_removal() + moved_removals(*access, moved@, k + 1));
            assert(queues.sky_update() =~= q_start.sky_update() + moved_updates(*access, moved@, k + 1));
        }
        k += 1;
    }
}

/// The light of every held block is settled, for both kinds of light.
pub open spec fn all_settled(a: MutableChunkAccess) -> bool {
    forall|p: BlockPos| #[trigger] a.lights().contains_key(p) ==> settled(a, p, false) && settled(a, p, true)
}

/// Writes the queued block writes of a chunk, one entry per section height,
/// records the changed blocks and the stale meshes in `ctx`, makes the sky
/// light columns of the chunk follow the blocks that stop or start letting
/// light through, and spreads the light changes. When the light was settled
/// before, it is settled after; when each block light was sourced before
/// (by its block's emission, a neighbor one level brighter, or beyond the
/// held blocks) and no entry writes a block twice, it is sourced after.
/// `false` when the light reached a block whose section is not held, and
/// the spreading is then unfinished.
#[verifier::rlimit(60)]
pub fn write_chunk_updates_to_chunk(
    updates: &[(i32, Vec<ChunkSectionUpdate>)],
    sky: &mut SkyLightColumns,
    access: &mut MutableChunkAccess,
    ctx: &mut ChunkUpdateContext,
) -> (ok: bool)
    requires
        updates@.len() > 0,
        old(access).inv(),
        lights_valid(*old(access)),
        ids_registered(*old(access)),
        lights_fit(old(access).registry_view()),
        all_settled(*old(access)),
        old(ctx).wf(),
        chunk_writes_ok(*old(access), old(ctx).chunk, updates@),
        records_ok(old(ctx).block_updates@, old(access).registry_view().len()),
        old(sky)@.len() == 1024,
        forall|c: int| 0 <= c < 1024 ==> node_wf(#[trigger] old(sky)@[c]),
    ensures
        final(access).inv(),
        lights_valid(*final(access)),
        ids_registered(*final(access)),
        final(ctx).wf(),
        final(ctx).chunk == old(ctx).chunk,
        final(access).registry_view() == old(access).registry_view(),
        final(access).section_set() == old(access).section_set(),
        final(access).blocks().dom() == old(access).blocks().dom(),
        final(access).lights().dom() == old(access).lights().dom(),
        forall|j: int| 0 <= j < updates@.len() ==> #[trigger] final(access).section_blocks(section_at(old(ctx).chunk, updates@[j].0))
            == apply_updates(old(access).section_blocks(section_at(old(ctx).chunk, updates@[j].0)), updates@[j].1@),
        forall|p: BlockPos| #[trigger] final(access).blocks().contains_key(p) && !rewritten(old(ctx).chunk, updates@, updates@.len() as int, section_of(p))
            ==> final(access).blocks()[p] == old(access).blocks()[p],
        final(ctx).block_updates@ == chunk_records(old(ctx).block_updates@, *old(access), old(ctx).chunk, updates@, updates@.len() as int),
        final(ctx).rebuild@ == old(ctx).rebuild@.union(chunk_stale(*old(access), old(ctx).chunk, updates@, updates@.len() as int)),
        records_ok(final(ctx).block_updates@, old(access).registry_view().len()),
        final(sky)@.len() == 1024,
        forall|c: int| 0 <= c < 1024 ==> node_wf(#[trigger] final(sky)@[c]),
        forall|c: usize, y: i32| c < 1024 && #[trigger] column_turned(old(access).registry_view(), final(ctx).block_updates@, c, y)
            ==> exists|b: BlockPos| #[trigger] turned(old(access).registry_view(), final(ctx).block_updates@, b, c, y)
                && solid_at(final(sky)@[c as int], y as int) == now_solid(old(access).registry_view(), final(ctx).block_updates@[b]),
        forall|c: usize, y: i32| c < 1024 && !column_turned(old(access).registry_view(), final(ctx).block_updates@, c, y)
            ==> #[trigger] solid_at(final(sky)@[c as int], y as int) == solid_at(old(sky)@[c as int], y as int),
        old(access).rebuild_set().subset_of(final(access).rebuild_set()),
        forall|p: BlockPos| #[trigger] final(access).lights().contains_key(p) && final(access).lights()[p] != old(access).lights()[p]
            ==> final(access).rebuild_set().contains(section_of(p)),
        ok ==> all_settled(*final(access)),
        !ok ==> exists|q: BlockPos| near_chunk(*final(access), old(ctx).chunk, q) && super::propagation::at_edge(*final(access), q),
        ok && all_sourced(*old(access), block_emission(*old(access)), false)
            && (forall|j: int| 0 <= j < updates@.len() ==> distinct_writes(#[trigger] updates@[j].1@))
            ==> all_sourced(*final(access), block_emission(*final(access)), false),
{
    let ghost a0 = *access;
    let mut queues = LightUpdateQueues::new();
    proof {
        assert(ready_to_propagate(a0, queues.block_removal(), queues.block_update(), false));
        assert(ready_to_propagate(a0, queues.sky_removal(), queues.sky_update(), true));
    }
    write_sections(updates, access, ctx, &mut queues);
    let ghost a1 = *access;
    proof {
        assert(section_in_range(section_at(ctx.chunk, updates@[0].0)));
    }
    let moved = update_sky_columns(sky, access.registry(), &ctx.block_updates, ctx.chunk);
    if !columns_held(access, &moved) {
        proof {
            let i = choose|i: int| 0 <= i < moved@.len() && !moved_column_held(*access, #[trigger] moved@[i]);
            let m = moved@[i];
            let y = choose|y: int| m.2 <= y < m.3 && !access.lights().contains_key(#[trigger] column_block(m.0, m.1, y));
            lemma_column_block_in_chunk(m, ctx.chunk, y);
            assert(near_chunk(*access, ctx.chunk, column_block(m.0, m.1, y)));
            assert(super::propagation::at_edge(*access, column_block(m.0, m.1, y)));
        }
        return false;
    }
    let ghost q1 = queues;
    queue_moved_columns(&mut queues, access, &moved);
    proof {
        lemma_moved_in_chunk(*access, moved@, moved@.len() as int, ctx.chunk);
        lemma_append_in_chunk(q1.sky_removal(), moved_removals(*access, moved@, moved@.len() as int), ctx.chunk);
        lemma_append_in_chunk(q1.sky_update(), moved_updates(*access, moved@, moved@.len() as int), ctx.chunk);
    }
    let ghost a2 = *access;
    let ghost q2 = queues;
    if !super::propagation::propagate_block_light(&mut queues, access) {
        proof {
            lemma_same_blocks_same_sections(a1, *access, ctx.chunk, updates@);
            let q = choose|q: BlockPos| super::propagation::reached(*access, q2.block_removal(), q2.block_update(), q)
                && super::propagation::at_edge(*access, q);
            lemma_reached_near(*access, q2.block_removal(), q2.block_update(), ctx.chunk, q);
        }
        return false;
    }
    let ghost a3 = *access;
    let ghost q3 = queues;
    proof {
        lemma_ready_after_frame(a2, a3, queues.sky_removal(), queues.sky_update(), true);
    }
    let ok = super::propagation::propagate_sky_light(&mut queues, access);
    proof {
        let a4 = *access;
        if ok && all_sourced(a0, block_emission(a0), false) && (forall|j: int| 0 <= j < updates@.len() ==> distinct_writes(#[trigger] updates@[j].1@)) {
            assert(removals_at_least(a2, q2.block_removal(), false));
            assert(sources_before(a2, q2.block_removal(), q2.block_update(), block_emission(a1), false));
            assert(all_sourced(a3, block_emission(a1), false));
            assert forall|q: BlockPos| #[trigger] a4.lights().contains_key(q) implies block_emission(a4)(q) == block_emission(a1)(q) by {}
            lemma_block_sourced_frame(a3, a4, block_emission(a1));
        }
        if ok {
            assert(ready_to_propagate(a3, Seq::empty(), Seq::empty(), false));
            lemma_ready_after_frame(a3, a4, Seq::empty(), Seq::empty(), false);
        } else {
            let q = choose|q: BlockPos| super::propagation::reached(a4, q3.sky_removal(), q3.sky_update(), q)
                && super::propagation::at_edge(a4, q);
            lemma_reached_near(a4, q3.sky_removal(), q3.sky_update(), ctx.chunk, q);
        }
        lemma_same_blocks_same_sections(a1, a4, ctx.chunk, updates@);
    }
    ok
}

/// Accesses that hold the same blocks store the same blocks for each section
/// that an entry writes.
proof fn lemma_same_blocks_same_sections(a: MutableChunkAccess, b: MutableChunkAccess, chunk: ChunkPos, ups: Seq<(i32, Vec<ChunkSectionUpdate>)>)
    requires
        a.inv(),
        b.inv(),
        chunk_writes_ok(a, chunk, ups),
        b.section_set() == a.section_set(),
        b.blocks() == a.blocks(),
    ensures
        forall|j: int| 0 <= j < ups.len() ==> #[trigger] b.section_blocks(section_at(chunk, ups[j].0)) == a.section_blocks(section_at(chunk, ups[j].0)),
{
    assert forall|j: int| 0 <= j < ups.len() implies #[trigger] b.section_blocks(section_at(chunk, ups[j].0)) == a.section_blocks(section_at(chunk, ups[j].0)) by {
        let q = section_at(chunk, ups[j].0);
        assert(a.section_set().contains(q) && section_in_range(q));
        lemma_section_blocks_from_blocks(a, b, q);
    }
}

} // verus!
