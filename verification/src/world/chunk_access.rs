//! Block writes queued by chunk and section height, and applying all of them
//! at once.
use super::access::{local_flat, MutableChunkAccess};
use super::chunk::{in_bounds, BlockUpdate, ChunkSectionPos, ChunkSectionUpdate};
use super::chunk_update::{all_settled, chunk_records, chunk_stale, chunk_writes_ok, lights_fit, records_ok, write_chunk_updates_to_chunk};
use super::lighting::{node_wf, SkyLightColumns};
use super::propagation::{ids_registered, lights_valid};
use super::registry::BlockId;
use super::section_update::{apply_updates, lemma_section_blocks_from_blocks, section_at, section_in_range, ChunkUpdateContext};
use super::{section_of, BlockPos, ChunkPos};
use crate::vecmap::{VecMap, VecSet};
use vstd::prelude::*;

verus! {

/// The writes of one chunk for the section at height `y`, oldest first.
pub open spec fn height_writes(ys: Seq<(i32, Vec<ChunkSectionUpdate>)>, y: i32) -> Seq<ChunkSectionUpdate> {
    if exists|k: int| 0 <= k < ys.len() && (#[trigger] ys[k]).0 == y {
        ys[choose|k: int| 0 <= k < ys.len() && (#[trigger] ys[k]).0 == y].1@
    } else {
        Seq::empty()
    }
}

/// The heights of a chunk's writes are distinct, and each has at least one
/// write.
pub open spec fn heights_ok(ys: Seq<(i32, Vec<ChunkSectionUpdate>)>) -> bool {
    &&& forall|j: int, k: int| 0 <= j < k < ys.len() ==> (#[trigger] ys[j]).0 != (#[trigger] ys[k]).0
    &&& forall|k: int| 0 <= k < ys.len() ==> (#[trigger] ys[k]).1@.len() > 0
}

/// A chunk's writes name at least one height, with distinct heights that
/// each have at least one write.
pub open spec fn heights_wf(ys: Seq<(i32, Vec<ChunkSectionUpdate>)>) -> bool {
    ys.len() > 0 && heights_ok(ys)
}

/// The offset of a block inside its section.
pub open spec fn offset_in_section(pos: BlockPos) -> [usize; 3] {
    [
        (pos.x - 32 * section_of(pos).x) as usize,
        (pos.y - 32 * section_of(pos).y) as usize,
        (pos.z - 32 * section_of(pos).z) as usize,
    ]
}

/// The chunk of a section.
pub open spec fn chunk_of(s: ChunkSectionPos) -> ChunkPos {
    ChunkPos { x: s.x, z: s.z }
}

/// The entry of a chunk's writes for height `y`, when its heights are
/// distinct.
proof fn lemma_height_writes_at(ys: Seq<(i32, Vec<ChunkSectionUpdate>)>, k: int)
    requires
        heights_ok(ys),
        0 <= k < ys.len(),
    ensures
        height_writes(ys, ys[k].0) == ys[k].1@,
{
    let y = ys[k].0;
    assert(exists|j: int| 0 <= j < ys.len() && (#[trigger] ys[j]).0 == y);
    let j = choose|j: int| 0 <= j < ys.len() && (#[trigger] ys[j]).0 == y;
    if j != k {
        if j < k {
            assert(ys[j].0 != ys[k].0);
        } else {
            assert(ys[k].0 != ys[j].0);
        }
    }
}

/// Block writes waiting to be applied, by chunk and section height.
pub struct ChunkAccess {
    chunk_updates: VecMap<ChunkPos, Vec<(i32, Vec<ChunkSectionUpdate>)>>,
}

impl ChunkAccess {
    pub closed spec fn wf(&self) -> bool {
        &&& self.chunk_updates.wf()
        &&& forall|c: ChunkPos| #[trigger] self.chunk_updates@.contains_key(c) ==> heights_wf(self.chunk_updates@[c]@)
    }

    /// The writes waiting for the section at height `y` of chunk `c`,
    /// oldest first.
    pub closed spec fn queued(&self, c: ChunkPos, y: i32) -> Seq<ChunkSectionUpdate> {
        if self.chunk_updates@.contains_key(c) {
            height_writes(self.chunk_updates@[c]@, y)
        } else {
            Seq::empty()
        }
    }

    /// The chunks with queued writes, in the order they are applied.
    pub closed spec fn chunk_order(&self) -> Seq<ChunkPos> {
        self.chunk_updates.key_seq()
    }

    /// The queued writes of a chunk, by section height, in the order they
    /// are applied.
    pub closed spec fn chunk_entries(&self, c: ChunkPos) -> Seq<(i32, Vec<ChunkSectionUpdate>)> {
        self.chunk_updates@[c]@
    }

    /// Nothing queued.
    pub fn new() -> (r: Self)
        ensures
            r.wf(),
            forall|c: ChunkPos, y: i32| #[trigger] r.queued(c, y) == Seq::<ChunkSectionUpdate>::empty(),
    {
        ChunkAccess { chunk_updates: VecMap::new() }
    }

    /// Queues the write of block `id` at `pos`, after those queued for its
    /// section.
    pub fn set_block(&mut self, pos: BlockPos, id: BlockId)
        requires
            old(self).wf(),
        ensures
            final(self).wf(),
            forall|c: ChunkPos, y: i32| #[trigger] final(self).queued(c, y) == if c == chunk_of(section_of(pos)) && y == section_of(pos).y {
                old(self).queued(c, y).push(ChunkSectionUpdate { index: offset_in_section(pos), id })
            } else {
                old(self).queued(c, y)
            },
    {
        let (section_pos, index) = pos.section_and_offset();
        let chunk = section_pos.column();
        let update = ChunkSectionUpdate { index, id };
        proof {
            assert(index@ =~= offset_in_section(pos)@);
            assert(index == offset_in_section(pos));
        }
        let ghost m0 = self.chunk_updates@;
        let mut ys = match self.chunk_updates.remove(&chunk) {
            Some(ys) => ys,
            None => Vec::new(),
        };
        let ghost ys0 = ys@;
        proof {
            if !m0.contains_key(chunk) {
                assert(ys0 =~= Seq::<(i32, Vec<ChunkSectionUpdate>)>::empty());
            }
            assert(heights_ok(ys0));
        }
        let y = section_pos.y;
        match find_height(&ys, y) {
            Some(k) => {
                let (h, mut list) = ys.remove(k);
                list.push(update);
                ys.insert(k, (h, list));
                proof {
                    assert(ys@ =~= ys0.update(k as int, (h, list)));
                    assert forall|j: int, l: int| 0 <= j < l < ys@.len() implies (#[trigger] ys@[j]).0 != (#[trigger] ys@[l]).0 by {
                        assert(ys@[j].0 == ys0[j].0 && ys@[l].0 == ys0[l].0);
                    }
                    assert forall|l: int| 0 <= l < ys@.len() implies (#[trigger] ys@[l]).1@.len() > 0 by {
                        if l != k {
                            assert(ys@[l] == ys0[l]);
                        }
                    }
                    lemma_height_writes_at(ys0, k as int);
                    lemma_height_writes_at(ys@, k as int);
                    assert forall|y2: i32| y2 != y implies height_writes(ys@, y2) == height_writes(ys0, y2) by {
                        if exists|j: int| 0 <= j < ys0.len() && (#[trigger] ys0[j]).0 == y2 {
                            let j = choose|j: int| 0 <= j < ys0.len() && (#[trigger] ys0[j]).0 == y2;
                            lemma_height_writes_at(ys0, j);
                            lemma_height_writes_at(ys@, j);
                        } else {
                            assert(!exists|j: int| 0 <= j < ys@.len() && (#[trigger] ys@[j]).0 == y2) by {
                                if exists|j: int| 0 <= j < ys@.len() && (#[trigger] ys@[j]).0 == y2 {
                                    let j = choose|j: int| 0 <= j < ys@.len() && (#[trigger] ys@[j]).0 == y2;
                                    assert(ys0[j].0 == y2);
                                }
                            }
                        }
                    }
                }
            },
            None => {
                let mut list: Vec<ChunkSectionUpdate> = Vec::new();
                list.push(update);
                ys.push((y, list));
                proof {
                    let n = ys0.len() as int;
                    assert(ys@ =~= ys0.push((y, list)));
                    assert forall|j: int, l: int| 0 <= j < l < ys@.len() implies (#[trigger] ys@[j]).0 != (#[trigger] ys@[l]).0 by {
                        if l == n {
                            assert(ys0[j].0 != y);
                        } else {
                            assert(ys@[j] == ys0[j] && ys@[l] == ys0[l]);
                        }
                    }
                    assert forall|l: int| 0 <= l < ys@.len() implies (#[trigger] ys@[l]).1@.len() > 0 by {
                        if l < n {
                            assert(ys@[l] == ys0[l]);
                        }
                    }
                    lemma_height_writes_at(ys@, n);
                    assert(!exists|j: int| 0 <= j < ys0.len() && (#[trigger] ys0[j]).0 == y);
                    assert(height_writes(ys0, y) =~= Seq::<ChunkSectionUpdate>::empty());
                    assert(list@ =~= Seq::<ChunkSectionUpdate>::empty().push(update));
                    assert forall|y2: i32| y2 != y implies height_writes(ys@, y2) == height_writes(ys0, y2) by {
                        if exists|j: int| 0 <= j < ys0.len() && (#[trigger] ys0[j]).0 == y2 {
                            let j = choose|j: int| 0 <= j < ys0.len() && (#[trigger] ys0[j]).0 == y2;
                            lemma_height_writes_at(ys0, j);
                            lemma_height_writes_at(ys@, j);
                        } else {
                            assert(!exists|j: int| 0 <= j < ys@.len() && (#[trigger] ys@[j]).0 == y2) by {
                                if exists|j: int| 0 <= j < ys@.len() && (#[trigger] ys@[j]).0 == y2 {
                                    let j = choose|j: int| 0 <= j < ys@.len() && (#[trigger] ys@[j]).0 == y2;
                                    assert(j != n);
                                    assert(ys0[j].0 == y2);
                                }
                            }
                        }
                    }
                }
            },
        }
        self.chunk_updates.insert(chunk, ys);
        proof {
            assert forall|c: ChunkPos| #[trigger] self.chunk_updates@.contains_key(c) implies heights_wf(self.chunk_updates@[c]@) by {
                if c != chunk {
                    assert(m0.contains_key(c));
                }
            }
            assert forall|c: ChunkPos, y2: i32| #[trigger] self.queued(c, y2) == if c == chunk_of(section_of(pos)) && y2 == section_of(pos).y {
                old(self).queued(c, y2).push(ChunkSectionUpdate { index: offset_in_section(pos), id })
            } else {
                old(self).queued(c, y2)
            } by {
                if c != chunk {
                    assert(self.chunk_updates@.contains_key(c) == m0.contains_key(c));
                }
            }
        }
    }
}

/// Where the entry for height `y` is among a chunk's writes.
fn find_height(ys: &Vec<(i32, Vec<ChunkSectionUpdate>)>, y: i32) -> (r: Option<usize>)
    ensures
        r matches Some(k) ==> k < ys@.len() && ys@[k as int].0 == y,
        r is None ==> forall|k: int| 0 <= k < ys@.len() ==> (#[trigger] ys@[k]).0 != y,
{
    let mut k: usize = 0;
    while k < ys.len()
        invariant
            k <= ys@.len(),
            forall|j: int| 0 <= j < k ==> (#[trigger] ys@[j]).0 != y,
        decreases ys@.len() - k,
    {
        if ys[k].0 == y {
            return Some(k);
        }
        k += 1;
    }
    None
}

/// The sky light columns of a chunk are well formed.
pub open spec fn sky_ok(sky: SkyLightColumns) -> bool {
    &&& sky@.len() == 1024
    &&& forall|c: int| 0 <= c < 1024 ==> node_wf(#[trigger] sky@[c])
}

/// Every queued write can be applied to `a`: its section is held and in
/// range, and the write lies inside it and names a registered kind.
pub open spec fn queued_ok(q: ChunkAccess, a: MutableChunkAccess) -> bool {
    forall|c: ChunkPos, y: i32| #[trigger] q.queued(c, y).len() > 0 ==> {
        &&& a.section_set().contains(section_at(c, y))
        &&& section_in_range(section_at(c, y))
        &&& forall|i: int| 0 <= i < q.queued(c, y).len() ==> in_bounds((#[trigger] q.queued(c, y)[i]).index) && q.queued(c, y)[i].id.0 < a.registry_view().len()
    }
}

/// The block changes recorded by the first `n` chunks in the order of `q`,
/// starting from `m`, each section written from its blocks in `a`.
pub open spec fn all_records(m: Map<BlockPos, BlockUpdate>, a: MutableChunkAccess, q: ChunkAccess, n: int) -> Map<BlockPos, BlockUpdate>
    decreases n,
{
    if n <= 0 {
        m
    } else {
        let c = q.chunk_order()[n - 1];
        chunk_records(all_records(m, a, q, n - 1), a, c, q.chunk_entries(c), q.chunk_entries(c).len() as int)
    }
}

/// The sections whose meshes the first `n` chunks in the order of `q` make
/// stale, each section written from its blocks in `a`.
pub open spec fn all_stale(a: MutableChunkAccess, q: ChunkAccess, n: int) -> Set<ChunkSectionPos>
    decreases n,
{
    if n <= 0 {
        Set::empty()
    } else {
        let c = q.chunk_order()[n - 1];
        all_stale(a, q, n - 1).union(chunk_stale(a, c, q.chunk_entries(c), q.chunk_entries(c).len() as int))
    }
}

/// Records and stale sections of a chunk depend only on the blocks of the
/// sections it writes.
proof fn lemma_chunk_folds_agree(m: Map<BlockPos, BlockUpdate>, a: MutableChunkAccess, b: MutableChunkAccess, c: ChunkPos, ups: Seq<(i32, Vec<ChunkSectionUpdate>)>, n: int)
    requires
        0 <= n <= ups.len(),
        forall|j: int| 0 <= j < n ==> #[trigger] a.section_blocks(section_at(c, ups[j].0)) == b.section_blocks(section_at(c, ups[j].0)),
    ensures
        chunk_records(m, a, c, ups, n) == chunk_records(m, b, c, ups, n),
        chunk_stale(a, c, ups, n) == chunk_stale(b, c, ups, n),
    decreases n,
{
    if n > 0 {
        lemma_chunk_folds_agree(m, a, b, c, ups, n - 1);
        assert(a.section_blocks(section_at(c, ups[n - 1].0)) == b.section_blocks(section_at(c, ups[n - 1].0)));
    }
}

/// One of the first `n` chunks writes the section of `p`.
spec fn written_before(ks: Seq<ChunkPos>, vs: Seq<Vec<(i32, Vec<ChunkSectionUpdate>)>>, n: int, p: BlockPos) -> bool {
    exists|j: int| 0 <= j < n && ks[j] == chunk_of(section_of(p)) && #[trigger] height_writes(vs[j]@, section_of(p).y).len() > 0
}

/// Applies every queued write, one chunk after the other, records the
/// changed blocks and the sections to rebuild, and spreads the light
/// changes; the queue is left empty. When the light was settled before, it
/// is settled after; `false` when the light reached a block whose section
/// is not held, and the work is then unfinished.
#[verifier::rlimit(60)]
pub fn write_all_chunk_updates(
    access: &mut ChunkAccess,
    world: &mut MutableChunkAccess,
    skies: &mut VecMap<ChunkPos, SkyLightColumns>,
    rebuild: &mut VecSet<ChunkSectionPos>,
    block_updates: &mut VecMap<BlockPos, BlockUpdate>,
) -> (ok: bool)
    requires
        old(access).wf(),
        old(world).inv(),
        lights_valid(*old(world)),
        ids_registered(*old(world)),
        lights_fit(old(world).registry_view()),
        all_settled(*old(world)),
        queued_ok(*old(access), *old(world)),
        old(skies).wf(),
        forall|c: ChunkPos| #[trigger] old(skies)@.contains_key(c) ==> sky_ok(old(skies)@[c]),
        forall|c: ChunkPos, y: i32| #[trigger] old(access).queued(c, y).len() > 0 ==> old(skies)@.contains_key(c),
        old(rebuild).wf(),
        old(block_updates).wf(),
        records_ok(old(block_updates)@, old(world).registry_view().len()),
    ensures
        final(access).wf(),
        forall|c: ChunkPos, y: i32| #[trigger] final(access).queued(c, y) == Seq::<ChunkSectionUpdate>::empty(),
        final(world).inv(),
        lights_valid(*final(world)),
        ids_registered(*final(world)),
        final(world).registry_view() == old(world).registry_view(),
        final(world).section_set() == old(world).section_set(),
        final(world).blocks().dom() == old(world).blocks().dom(),
        final(world).lights().dom() == old(world).lights().dom(),
        final(skies).wf(),
        final(skies)@.dom() == old(skies)@.dom(),
        forall|c: ChunkPos| #[trigger] final(skies)@.contains_key(c) ==> sky_ok(final(skies)@[c]),
        final(rebuild).wf(),
        old(rebuild)@.subset_of(final(rebuild)@),
        final(block_updates).wf(),
        records_ok(final(block_updates)@, old(world).registry_view().len()),
        ok ==> all_settled(*final(world)),
        ok ==> final(block_updates)@ == all_records(old(block_updates)@, *old(world), *old(access), old(access).chunk_order().len() as int),
        ok ==> final(rebuild)@ == old(rebuild)@.union(all_stale(*old(world), *old(access), old(access).chunk_order().len() as int)).union(final(world).rebuild_set()),
        ok ==> forall|c: ChunkPos, y: i32| #[trigger] old(access).queued(c, y).len() > 0 ==> final(world).section_blocks(section_at(c, y))
            == apply_updates(old(world).section_blocks(section_at(c, y)), old(access).queued(c, y)),
        ok ==> forall|p: BlockPos| #[trigger] final(world).blocks().contains_key(p) && old(access).queued(chunk_of(section_of(p)), section_of(p).y).len() == 0
            ==> final(world).blocks()[p] == old(world).blocks()[p],
        ok ==> forall|p: BlockPos| #[trigger] final(world).lights().contains_key(p) && final(world).lights()[p] != old(world).lights()[p]
            ==> final(rebuild)@.contains(section_of(p)),
{
    let ghost w0 = *world;
    let ghost q0 = *access;
    let ghost r0 = rebuild@;
    let mut updates: VecMap<ChunkPos, Vec<(i32, Vec<ChunkSectionUpdate>)>> = VecMap::new();
    std::mem::swap(&mut updates, &mut access.chunk_updates);
    let ks = updates.keys();
    let vs = updates.values();
    proof {
        updates.lemma_values();
    }
    proof {
        assert forall|c1: ChunkPos, y: i32| #[trigger] access.queued(c1, y) == Seq::<ChunkSectionUpdate>::empty() by {}
    }
    let mut i: usize = 0;
    while i < ks.len()
        invariant
            access.wf(),
            forall|c1: ChunkPos, y: i32| #[trigger] access.queued(c1, y) == Seq::<ChunkSectionUpdate>::empty(),
            w0 == *old(world),
            q0 == *old(access),
            r0 == old(rebuild)@,
            updates.wf(),
            updates@ == q0.chunk_updates@,
            q0.wf(),
            ks@ == updates.key_seq(),
            vs@ == updates.val_seq(),
            forall|j: int| 0 <= j < ks@.len() ==> #[trigger] updates@.contains_key(ks@[j]) && updates@[ks@[j]] == vs@[j],
            i <= ks@.len(),
            world.inv(),
            lights_valid(*world),
            ids_registered(*world),
            lights_fit(w0.registry_view()),
            all_settled(*world),
            w0.inv(),
            queued_ok(q0, w0),
            world.registry_view() == w0.registry_view(),
            world.section_set() == w0.section_set(),
            world.blocks().dom() == w0.blocks().dom(),
            world.lights().dom() == w0.lights().dom(),
            skies.wf(),
            skies@.dom() == old(skies)@.dom(),
            forall|c: ChunkPos| #[trigger] skies@.contains_key(c) ==> sky_ok(skies@[c]),
            forall|c: ChunkPos, y: i32| #[trigger] q0.queued(c, y).len() > 0 ==> skies@.contains_key(c),
            rebuild.wf(),
            r0.subset_of(rebuild@),
            block_updates.wf(),
            records_ok(block_updates@, w0.registry_view().len()),
            block_updates@ == all_records(old(block_updates)@, w0, q0, i as int),
            rebuild@ == r0.union(all_stale(w0, q0, i as int)),
            q0.chunk_order() == ks@,
            forall|j: int, y: i32| 0 <= j < i && #[trigger] height_writes(vs@[j]@, y).len() > 0 ==> world.section_blocks(section_at(ks@[j], y))
                == apply_updates(w0.section_blocks(section_at(ks@[j], y)), height_writes(vs@[j]@, y)),
            forall|p: BlockPos| #[trigger] world.blocks().contains_key(p) && !written_before(ks@, vs@, i as int, p) ==> world.blocks()[p] == w0.blocks()[p],
            forall|p: BlockPos| #[trigger] world.lights().contains_key(p) && world.lights()[p] != w0.lights()[p] ==> world.rebuild_set().contains(section_of(p)),
            w0.rebuild_set().subset_of(world.rebuild_set()),
        decreases ks@.len() - i,
    {
        let c = ks[i];
        let entries = vs[i].as_slice();
        let ghost a1 = *world;
        let ghost ups = entries@;
        proof {
            assert(updates@.contains_key(ks@[i as int]));
            assert(heights_wf(ups));
            assert(chunk_writes_ok(a1, c, ups)) by {
                assert forall|j: int| 0 <= j < ups.len() implies (#[trigger] ups[j]).1@.len() > 0
                    && a1.section_set().contains(section_at(c, ups[j].0))
                    && section_in_range(section_at(c, ups[j].0))
                    && (forall|k: int| 0 <= k < ups[j].1@.len() ==> in_bounds((#[trigger] ups[j].1@[k]).index) && ups[j].1@[k].id.0 < a1.registry_view().len()) by {
                    lemma_height_writes_at(ups, j);
                    assert(q0.queued(c, ups[j].0) == ups[j].1@);
                    assert(q0.queued(c, ups[j].0).len() > 0);
                }
            }
            let y0 = ups[0].0;
            lemma_height_writes_at(ups, 0);
            assert(q0.queued(c, y0).len() > 0);
            assert(skies@.contains_key(c));
        }
        let mut sky = match skies.remove(&c) {
            Some(sky) => sky,
            None => {
                proof {
                    assert(false);
                }
                return false;
            },
        };
        let mut taken_rebuild = VecSet::new();
        std::mem::swap(&mut taken_rebuild, rebuild);
        let mut taken_updates = VecMap::new();
        std::mem::swap(&mut taken_updates, block_updates);
        let mut ctx = ChunkUpdateContext { rebuild: taken_rebuild, block_updates: taken_updates, chunk: c };
        let ok = write_chunk_updates_to_chunk(entries, &mut sky, world, &mut ctx);
        let ChunkUpdateContext { rebuild: new_rebuild, block_updates: new_updates, chunk: _ } = ctx;
        *rebuild = new_rebuild;
        *block_updates = new_updates;
        let ghost sky1 = sky;
        skies.insert(c, sky);
        proof {
            assert forall|c1: ChunkPos| #[trigger] skies@.contains_key(c1) implies sky_ok(skies@[c1]) by {
                if c1 != c {
                    assert(old(skies)@.contains_key(c1));
                }
            }
            assert(skies@.dom() =~= old(skies)@.dom());
        }
        if !ok {
            return false;
        }
        proof {
            lemma_chunk_step(ks@, vs@, i as int, w0, a1, *world, q0, updates);
            lemma_chunk_untouched(ks@, vs@, i as int, w0, a1, q0, updates);
            lemma_chunk_folds_agree(all_records(old(block_updates)@, w0, q0, i as int), a1, w0, c, ups, ups.len() as int);
            assert(q0.chunk_entries(c) == ups);
            assert(rebuild@ =~= r0.union(all_stale(w0, q0, i + 1)));
        }
        i += 1;
    }
    proof {
        assert forall|c1: ChunkPos, y: i32| #[trigger] q0.queued(c1, y).len() > 0 implies world.section_blocks(section_at(c1, y))
            == apply_updates(w0.section_blocks(section_at(c1, y)), q0.queued(c1, y)) by {
            let j = choose|j: int| 0 <= j < ks@.len() && ks@[j] == c1;
            assert(updates@.contains_key(ks@[j]));
            assert(height_writes(vs@[j]@, y) == q0.queued(c1, y));
        }
        assert forall|p: BlockPos| #[trigger] world.blocks().contains_key(p) && q0.queued(chunk_of(section_of(p)), section_of(p).y).len() == 0
            implies world.blocks()[p] == w0.blocks()[p] by {
            if written_before(ks@, vs@, i as int, p) {
                let j = choose|j: int| 0 <= j < i && ks@[j] == chunk_of(section_of(p)) && #[trigger] height_writes(vs@[j]@, section_of(p).y).len() > 0;
                assert(updates@.contains_key(ks@[j]));
            }
        }
    }
    let sections = world.rebuild_sections();
    let mut k: usize = 0;
    proof {
        assert(sections@.take(0) =~= Seq::<ChunkSectionPos>::empty());
        assert(rebuild@ =~= r0.union(all_stale(w0, q0, ks@.len() as int)).union(sections@.take(0).to_set()));
    }
    while k < sections.len()
        invariant
            k <= sections@.len(),
            rebuild.wf(),
            r0.subset_of(rebuild@),
            forall|j: int| 0 <= j < k ==> rebuild@.contains(#[trigger] sections@[j]),
            rebuild@ == r0.union(all_stale(w0, q0, ks@.len() as int)).union(sections@.take(k as int).to_set()),
        decreases sections@.len() - k,
    {
        let ghost before = rebuild@;
        rebuild.insert(sections[k]);
        proof {
            assert(sections@.take(k + 1) =~= sections@.take(k as int).push(sections@[k as int]));
            sections@.take(k as int).lemma_push_to_set_commute(sections@[k as int]);
            assert(rebuild@ =~= r0.union(all_stale(w0, q0, ks@.len() as int)).union(sections@.take(k + 1).to_set()));
        }
        k += 1;
    }
    proof {
        assert(sections@.take(k as int) =~= sections@);
    }
    proof {
        assert forall|p: BlockPos| #[trigger] world.lights().contains_key(p) && world.lights()[p] != w0.lights()[p]
            implies rebuild@.contains(section_of(p)) by {
            assert(sections@.to_set().contains(section_of(p)));
            let j = choose|j: int| 0 <= j < sections@.len() && sections@[j] == section_of(p);
            assert(rebuild@.contains(sections@[j]));
        }
    }
    true
}

/// Before chunk `i` is applied, its sections hold the blocks they held at
/// the start.
proof fn lemma_chunk_untouched(
    ks: Seq<ChunkPos>,
    vs: Seq<Vec<(i32, Vec<ChunkSectionUpdate>)>>,
    i: int,
    w0: MutableChunkAccess,
    a1: MutableChunkAccess,
    q0: ChunkAccess,
    updates: VecMap<ChunkPos, Vec<(i32, Vec<ChunkSectionUpdate>)>>,
)
    requires
        updates.wf(),
        updates@ == q0.chunk_updates@,
        q0.wf(),
        ks == updates.key_seq(),
        vs == updates.val_seq(),
        forall|j: int| 0 <= j < ks.len() ==> #[trigger] updates@.contains_key(ks[j]) && updates@[ks[j]] == vs[j],
        0 <= i < ks.len(),
        w0.inv(),
        a1.inv(),
        queued_ok(q0, w0),
        a1.section_set() == w0.section_set(),
        forall|p: BlockPos| #[trigger] a1.blocks().contains_key(p) && !written_before(ks, vs, i, p) ==> a1.blocks()[p] == w0.blocks()[p],
    ensures
        forall|j: int| 0 <= j < vs[i]@.len() ==> #[trigger] a1.section_blocks(section_at(ks[i], vs[i]@[j].0)) == w0.section_blocks(section_at(ks[i], vs[i]@[j].0)),
{
    let ups = vs[i]@;
    assert(updates@.contains_key(ks[i]));
    assert(heights_wf(ups));
    assert forall|j: int| 0 <= j < ups.len() implies #[trigger] a1.section_blocks(section_at(ks[i], ups[j].0)) == w0.section_blocks(section_at(ks[i], ups[j].0)) by {
        let s = section_at(ks[i], ups[j].0);
        lemma_height_writes_at(ups, j);
        assert(q0.queued(ks[i], ups[j].0) == ups[j].1@);
        assert(w0.section_set().contains(s) && section_in_range(s));
        assert forall|p: BlockPos| section_of(p) == s implies #[trigger] a1.blocks()[p] == w0.blocks()[p] by {
            w0.lemma_holds(p);
            a1.lemma_holds(p);
            if written_before(ks, vs, i, p) {
                let j2 = choose|j2: int| 0 <= j2 < i && ks[j2] == chunk_of(section_of(p)) && #[trigger] height_writes(vs[j2]@, section_of(p).y).len() > 0;
                assert(ks[j2] == ks[i]);
            }
        }
        lemma_section_blocks_from_blocks(a1, w0, s);
    }
}

/// Applying the writes of chunk `i` keeps what the earlier chunks wrote and
/// writes the sections of chunk `i` from their blocks before any write.
proof fn lemma_chunk_step(
    ks: Seq<ChunkPos>,
    vs: Seq<Vec<(i32, Vec<ChunkSectionUpdate>)>>,
    i: int,
    w0: MutableChunkAccess,
    a1: MutableChunkAccess,
    a2: MutableChunkAccess,
    q0: ChunkAccess,
    updates: VecMap<ChunkPos, Vec<(i32, Vec<ChunkSectionUpdate>)>>,
)
    requires
        updates.wf(),
        updates@ == q0.chunk_updates@,
        q0.wf(),
        ks == updates.key_seq(),
        vs == updates.val_seq(),
        forall|j: int| 0 <= j < ks.len() ==> #[trigger] updates@.contains_key(ks[j]) && updates@[ks[j]] == vs[j],
        0 <= i < ks.len(),
        w0.inv(),
        a1.inv(),
        a2.inv(),
        queued_ok(q0, w0),
        a1.section_set() == w0.section_set(),
        a2.section_set() == w0.section_set(),
        a1.blocks().dom() == w0.blocks().dom(),
        a2.blocks().dom() == w0.blocks().dom(),
        forall|j: int, y: i32| 0 <= j < i && #[trigger] height_writes(vs[j]@, y).len() > 0 ==> a1.section_blocks(section_at(ks[j], y))
            == apply_updates(w0.section_blocks(section_at(ks[j], y)), height_writes(vs[j]@, y)),
        forall|p: BlockPos| #[trigger] a1.blocks().contains_key(p) && !written_before(ks, vs, i, p) ==> a1.blocks()[p] == w0.blocks()[p],
        forall|j: int| 0 <= j < vs[i]@.len() ==> #[trigger] a2.section_blocks(section_at(ks[i], vs[i]@[j].0))
            == apply_updates(a1.section_blocks(section_at(ks[i], vs[i]@[j].0)), vs[i]@[j].1@),
        forall|p: BlockPos| #[trigger] a2.blocks().contains_key(p) && !super::chunk_update::rewritten(ks[i], vs[i]@, vs[i]@.len() as int, section_of(p))
            ==> a2.blocks()[p] == a1.blocks()[p],
    ensures
        forall|j: int, y: i32| 0 <= j < i + 1 && #[trigger] height_writes(vs[j]@, y).len() > 0 ==> a2.section_blocks(section_at(ks[j], y))
            == apply_updates(w0.section_blocks(section_at(ks[j], y)), height_writes(vs[j]@, y)),
        forall|p: BlockPos| #[trigger] a2.blocks().contains_key(p) && !written_before(ks, vs, i + 1, p) ==> a2.blocks()[p] == w0.blocks()[p],
{
    let c = ks[i];
    let ups = vs[i]@;
    assert(updates@.contains_key(ks[i]));
    assert(heights_wf(ups));
    assert forall|j: int, y: i32| 0 <= j < i + 1 && #[trigger] height_writes(vs[j]@, y).len() > 0 implies a2.section_blocks(section_at(ks[j], y))
        == apply_updates(w0.section_blocks(section_at(ks[j], y)), height_writes(vs[j]@, y)) by {
        let s = section_at(ks[j], y);
        assert(updates@.contains_key(ks[j]));
        assert(q0.queued(ks[j], y) == height_writes(vs[j]@, y));
        assert(w0.section_set().contains(s) && section_in_range(s));
        if j == i {
            let k = choose|k: int| 0 <= k < ups.len() && (#[trigger] ups[k]).0 == y;
            lemma_height_writes_at(ups, k);
            assert forall|p: BlockPos| section_of(p) == s implies #[trigger] a1.blocks()[p] == w0.blocks()[p] by {
                w0.lemma_holds(p);
                if written_before(ks, vs, i, p) {
                    let j2 = choose|j2: int| 0 <= j2 < i && ks[j2] == chunk_of(section_of(p)) && #[trigger] height_writes(vs[j2]@, section_of(p).y).len() > 0;
                    assert(ks[j2] == ks[i]);
                }
            }
            lemma_section_blocks_from_blocks(a1, w0, s);
            assert(a2.section_blocks(section_at(ks[i], ups[k].0)) == apply_updates(a1.section_blocks(section_at(ks[i], ups[k].0)), ups[k].1@));
        } else {
            assert(ks[j] != c);
            assert forall|p: BlockPos| section_of(p) == s implies #[trigger] a1.blocks()[p] == a2.blocks()[p] by {
                w0.lemma_holds(p);
                if super::chunk_update::rewritten(c, ups, ups.len() as int, section_of(p)) {
                    let k = choose|k: int| 0 <= k < ups.len() && #[trigger] section_at(c, ups[k].0) == section_of(p);
                    assert(section_at(c, ups[k].0) == s);
                }
            }
            lemma_section_blocks_from_blocks(a1, a2, s);
        }
    }
    assert forall|p: BlockPos| #[trigger] a2.blocks().contains_key(p) && !written_before(ks, vs, i + 1, p) implies a2.blocks()[p] == w0.blocks()[p] by {
        if written_before(ks, vs, i, p) {
            let j = choose|j: int| 0 <= j < i && ks[j] == chunk_of(section_of(p)) && #[trigger] height_writes(vs[j]@, section_of(p).y).len() > 0;
            assert(0 <= j < i + 1);
        }
        if super::chunk_update::rewritten(c, ups, ups.len() as int, section_of(p)) {
            let k = choose|k: int| 0 <= k < ups.len() && #[trigger] section_at(c, ups[k].0) == section_of(p);
            lemma_height_writes_at(ups, k);
            assert(height_writes(vs[i]@, section_of(p).y).len() > 0);
        }
    }
}

/// What applying the queued writes tells the rest of the game: the held
/// sections to rebuild, and each recorded block change.
pub struct AppliedUpdates {
    pub modified_sections: Vec<ChunkSectionPos>,
    pub block_updates: Vec<super::BlockUpdateEvent>,
}

/// Applies every queued write (see [`write_all_chunk_updates`]), then gives
/// the sections to rebuild that are held, in the order they were marked, and
/// an event for each recorded block change.
#[verifier::rlimit(50)]
pub fn apply_chunk_updates(
    access: &mut ChunkAccess,
    world: &mut MutableChunkAccess,
    skies: &mut VecMap<ChunkPos, SkyLightColumns>,
) -> (r: (bool, AppliedUpdates))
    requires
        old(access).wf(),
        old(world).inv(),
        lights_valid(*old(world)),
        ids_registered(*old(world)),
        lights_fit(old(world).registry_view()),
        all_settled(*old(world)),
        queued_ok(*old(access), *old(world)),
        old(skies).wf(),
        forall|c: ChunkPos| #[trigger] old(skies)@.contains_key(c) ==> sky_ok(old(skies)@[c]),
        forall|c: ChunkPos, y: i32| #[trigger] old(access).queued(c, y).len() > 0 ==> old(skies)@.contains_key(c),
    ensures
        final(access).wf(),
        forall|c: ChunkPos, y: i32| #[trigger] final(access).queued(c, y) == Seq::<ChunkSectionUpdate>::empty(),
        final(world).inv(),
        lights_valid(*final(world)),
        ids_registered(*final(world)),
        final(world).registry_view() == old(world).registry_view(),
        final(world).section_set() == old(world).section_set(),
        final(skies).wf(),
        final(skies)@.dom() == old(skies)@.dom(),
        forall|c: ChunkPos| #[trigger] final(skies)@.contains_key(c) ==> sky_ok(final(skies)@[c]),
        forall|i: int| 0 <= i < r.1.modified_sections@.len() ==> final(world).section_set().contains(#[trigger] r.1.modified_sections@[i]),
        r.1.modified_sections@.no_duplicates(),
        forall|i: int, j: int| 0 <= i < j < r.1.block_updates@.len() ==> (#[trigger] r.1.block_updates@[i]).pos != (#[trigger] r.1.block_updates@[j]).pos,
        forall|i: int| 0 <= i < r.1.block_updates@.len() ==> (#[trigger] r.1.block_updates@[i]).old_id.0 < old(world).registry_view().len()
            && r.1.block_updates@[i].new_id.0 < old(world).registry_view().len(),
        r.0 ==> all_settled(*final(world)),
        r.0 ==> forall|i: int| 0 <= i < r.1.block_updates@.len() ==> ({
            let records = all_records(Map::empty(), *old(world), *old(access), old(access).chunk_order().len() as int);
            let e = #[trigger] r.1.block_updates@[i];
            records.contains_key(e.pos) && records[e.pos] == (BlockUpdate { old_id: e.old_id, new_id: e.new_id })
        }),
        r.0 ==> forall|p: BlockPos| #[trigger] all_records(Map::empty(), *old(world), *old(access), old(access).chunk_order().len() as int).contains_key(p)
            ==> exists|i: int| 0 <= i < r.1.block_updates@.len() && (#[trigger] r.1.block_updates@[i]).pos == p,
        r.0 ==> forall|s: ChunkSectionPos| r.1.modified_sections@.contains(s) <==> (final(world).section_set().contains(s)
            && (all_stale(*old(world), *old(access), old(access).chunk_order().len() as int).contains(s) || final(world).rebuild_set().contains(s))),
        r.0 ==> forall|c: ChunkPos, y: i32| #[trigger] old(access).queued(c, y).len() > 0 ==> final(world).section_blocks(section_at(c, y))
            == apply_updates(old(world).section_blocks(section_at(c, y)), old(access).queued(c, y)),
        r.0 ==> forall|p: BlockPos| #[trigger] final(world).blocks().contains_key(p) && old(access).queued(chunk_of(section_of(p)), section_of(p).y).len() == 0
            ==> final(world).blocks()[p] == old(world).blocks()[p],
        r.0 ==> forall|p: BlockPos| #[trigger] final(world).lights().contains_key(p) && final(world).lights()[p] != old(world).lights()[p]
            ==> r.1.modified_sections@.contains(section_of(p)),
{
    let mut rebuild_set: VecSet<ChunkSectionPos> = VecSet::new();
    let mut block_updates: VecMap<BlockPos, BlockUpdate> = VecMap::new();
    proof {
        assert(block_updates@ =~= Map::<BlockPos, BlockUpdate>::empty());
    }
    let ok = write_all_chunk_updates(access, world, skies, &mut rebuild_set, &mut block_updates);
    proof {
        assert(Set::<ChunkSectionPos>::empty().union(all_stale(*old(world), *old(access), old(access).chunk_order().len() as int)).union(world.rebuild_set())
            =~= all_stale(*old(world), *old(access), old(access).chunk_order().len() as int).union(world.rebuild_set()));
    }
    let marked = rebuild_set.as_slice();
    let mut modified: Vec<ChunkSectionPos> = Vec::new();
    let mut i: usize = 0;
    while i < marked.len()
        invariant
            world.inv(),
            rebuild_set.wf(),
            marked@ == rebuild_set.seq(),
            i <= marked@.len(),
            modified@.no_duplicates(),
            forall|j: int| 0 <= j < modified@.len() ==> world.section_set().contains(#[trigger] modified@[j]),
            forall|j: int| 0 <= j < modified@.len() ==> exists|l: int| 0 <= l < i && marked@[l] == #[trigger] modified@[j],
            forall|l: int| 0 <= l < i && world.section_set().contains(#[trigger] marked@[l]) ==> modified@.contains(marked@[l]),
        decreases marked@.len() - i,
    {
        let s = marked[i];
        if world.holds_section(s) {
            proof {
                assert(!modified@.contains(s)) by {
                    if modified@.contains(s) {
                        let j = choose|j: int| 0 <= j < modified@.len() && modified@[j] == s;
                        let l = choose|l: int| 0 <= l < i && marked@[l] == #[trigger] modified@[j];
                        assert(marked@[l] == marked@[i as int]);
                    }
                }
            }
            let ghost m0 = modified@;
            modified.push(s);
            proof {
                assert forall|j: int| 0 <= j < modified@.len() implies exists|l: int| 0 <= l < i + 1 && marked@[l] == #[trigger] modified@[j] by {
                    if j < m0.len() {
                        assert(modified@[j] == m0[j]);
                        let l = choose|l: int| 0 <= l < i && marked@[l] == #[trigger] m0[j];
                        assert(0 <= l < i + 1 && marked@[l] == modified@[j]);
                    } else {
                        assert(marked@[i as int] == modified@[j]);
                    }
                }
                assert forall|l: int| 0 <= l < i + 1 && world.section_set().contains(#[trigger] marked@[l]) implies modified@.contains(marked@[l]) by {
                    if l < i {
                        let j = choose|j: int| 0 <= j < m0.len() && m0[j] == marked@[l];
                        assert(modified@[j] == marked@[l]);
                    } else {
                        assert(modified@[m0.len() as int] == marked@[l]);
                    }
                }
            }
        } else {
            proof {
                assert forall|j: int| 0 <= j < modified@.len() implies exists|l: int| 0 <= l < i + 1 && marked@[l] == #[trigger] modified@[j] by {
                    let l = choose|l: int| 0 <= l < i && marked@[l] == #[trigger] modified@[j];
                    assert(0 <= l < i + 1);
                }
            }
        }
        i += 1;
    }
    proof {
        if ok {
            assert forall|s: ChunkSectionPos| modified@.contains(s) <==> (world.section_set().contains(s)
                && (all_stale(*old(world), *old(access), old(access).chunk_order().len() as int).contains(s) || world.rebuild_set().contains(s))) by {
                if modified@.contains(s) {
                    let j = choose|j: int| 0 <= j < modified@.len() && modified@[j] == s;
                    let l = choose|l: int| 0 <= l < i && marked@[l] == #[trigger] modified@[j];
                    assert(rebuild_set@.contains(marked@[l]));
                }
                if world.section_set().contains(s) && (all_stale(*old(world), *old(access), old(access).chunk_order().len() as int).contains(s) || world.rebuild_set().contains(s)) {
                    assert(rebuild_set@.contains(s));
                    let l = choose|l: int| 0 <= l < marked@.len() && marked@[l] == s;
                    assert(world.section_set().contains(marked@[l]));
                }
            }
            assert forall|p: BlockPos| #[trigger] world.lights().contains_key(p) && world.lights()[p] != old(world).lights()[p]
                implies modified@.contains(section_of(p)) by {
                assert(rebuild_set@.contains(section_of(p)));
                let l = choose|l: int| 0 <= l < marked@.len() && marked@[l] == section_of(p);
                world.lemma_holds(p);
                assert(world.section_set().contains(marked@[l]));
            }
        }
    }
    let keys = block_updates.keys();
    let vals = block_updates.values();
    proof {
        block_updates.lemma_values();
    }
    let mut events: Vec<super::BlockUpdateEvent> = Vec::new();
    let mut k: usize = 0;
    while k < keys.len()
        invariant
            block_updates.wf(),
            keys@ == block_updates.key_seq(),
            vals@ == block_updates.val_seq(),
            k <= keys@.len(),
            events@.len() == k,
            forall|j: int| 0 <= j < k ==> (#[trigger] events@[j]).pos == keys@[j] && events@[j].old_id == vals@[j].old_id && events@[j].new_id == vals@[j].new_id,
            records_ok(block_updates@, old(world).registry_view().len()),
            forall|j: int| 0 <= j < keys@.len() ==> #[trigger] block_updates@.contains_key(keys@[j]) && block_updates@[keys@[j]] == vals@[j],
            forall|j: int| 0 <= j < k ==> (#[trigger] events@[j]).old_id.0 < old(world).registry_view().len() && events@[j].new_id.0 < old(world).registry_view().len(),
            forall|j: int| 0 <= j < k ==> block_updates@.contains_key((#[trigger] events@[j]).pos) && block_updates@[events@[j].pos] == (BlockUpdate { old_id: events@[j].old_id, new_id: events@[j].new_id }),
        decreases keys@.len() - k,
    {
        proof {
            assert(block_updates@.contains_key(keys@[k as int]));
        }
        events.push(super::BlockUpdateEvent { pos: keys[k], old_id: vals[k].old_id, new_id: vals[k].new_id });
        k += 1;
    }
    proof {
        assert forall|p: BlockPos| #[trigger] block_updates@.contains_key(p) implies exists|i: int| 0 <= i < events@.len() && (#[trigger] events@[i]).pos == p by {
            let j = choose|j: int| 0 <= j < block_updates.key_seq().len() && block_updates.key_seq()[j] == p;
            assert(events@[j].pos == p);
        }
        if ok {
            let records = all_records(Map::empty(), *old(world), *old(access), old(access).chunk_order().len() as int);
            assert(block_updates@ == records);
            assert forall|p: BlockPos| #[trigger] all_records(Map::empty(), *old(world), *old(access), old(access).chunk_order().len() as int).contains_key(p)
                implies exists|i: int| 0 <= i < events@.len() && (#[trigger] events@[i]).pos == p by {
                assert(block_updates@.contains_key(p));
            }
        }
    }
    let r = (ok, AppliedUpdates { modified_sections: modified, block_updates: events });
    assert(r.1.block_updates@ == events@);
    r
}

} // verus!
