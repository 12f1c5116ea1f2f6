//! Writing access to the blocks and light of a set of chunk sections.
use super::chunk::{
    chunk_index, flat_index, lemma_block_index_roundtrip, ChunkData, ChunkSectionPos,
};
use super::lighting::{full_sky_light, LightValue};
use super::registry::{BlockId, BlockRegistry};
use super::{section_of, BlockPos};
use crate::vecmap::VecSet;
use super::chunk::{in_bounds, ChunkSectionUpdate};
use super::section_update::{apply_updates, recorded_updates, section_at, section_in_range, stale_sections, write_section_block_updates, ChunkUpdateContext};
use vstd::prelude::*;

verus! {

/// The blocks and light of one chunk section.
#[derive(Clone, Debug)]
pub struct ChunkSectionInner {
    pub pos: ChunkSectionPos,
    pub block_data: ChunkData<BlockId>,
    pub light_data: ChunkData<LightValue>,
}

/// The light a block starts with: full sky light when it lets light
/// through, none when it does not, and the block light it emits.
pub open spec fn spec_default_light(r: BlockRegistry, id: BlockId) -> LightValue {
    let e = r.entry(id.0 as int).properties;
    LightValue(((if e.light_transmissible { 15int } else { 0int }) * 16 + e.block_light % 16) as u16)
}

pub fn default_light(registry: &BlockRegistry, id: BlockId) -> (r: LightValue)
    requires
        id.0 < registry.len(),
    ensures
        r == spec_default_light(*registry, id),
{
    let sky_light: u16 = if registry.light_transmissible(id) {
        15
    } else {
        0
    };
    let block_light = registry.block_light(id);
    LightValue::pack(sky_light, block_light)
}

impl ChunkSectionInner {
    /// A section of the given blocks, each lit as it starts.
    pub fn initialize(pos: ChunkSectionPos, block_data: ChunkData<BlockId>, registry: &BlockRegistry) -> (r: Self)
        requires
            block_data.wf(),
            forall|i: int| 0 <= i < block_data@.len() ==> (#[trigger] block_data@[i]).0 < registry.len(),
        ensures
            r.pos == pos,
            r.block_data == block_data,
            r.light_data.wf(),
            r.light_data@ == block_data@.map_values(|id: BlockId| spec_default_light(*registry, id)),
    {
        let light_data = match &block_data {
            ChunkData::Homogeneous(id) => {
                assert(block_data@[0] == *id);
                let light = ChunkData::Homogeneous(default_light(registry, *id));
                assert(light@ =~= block_data@.map_values(|id: BlockId| spec_default_light(*registry, id)));
                light
            },
            ChunkData::Array(ids) => {
                let data = ids.data();
                let mut lights: Vec<LightValue> = Vec::with_capacity(data.len());
                let mut i: usize = 0;
                while i < data.len()
                    invariant
                        data@ == block_data@,
                        forall|k: int| 0 <= k < block_data@.len() ==> (#[trigger] block_data@[k]).0 < registry.len(),
                        i <= data@.len(),
                        lights@ == data@.take(i as int).map_values(|id: BlockId| spec_default_light(*registry, id)),
                    decreases data@.len() - i,
                {
                    assert(block_data@[i as int] == data@[i as int]);
                    lights.push(default_light(registry, data[i]));
                    i += 1;
                    assert(lights@ =~= data@.take(i as int).map_values(|id: BlockId| spec_default_light(*registry, id)));
                }
                assert(data@.take(i as int) =~= data@);
                match super::chunk::ArrayChunk::try_from(lights) {
                    Ok(chunk) => ChunkData::Array(chunk),
                    Err(_) => {
                        assert(false);
                        ChunkData::Homogeneous(full_sky_light())
                    },
                }
            },
        };
        ChunkSectionInner { pos, block_data, light_data }
    }
}

/// Where a block lives in the flat storage of its section.
pub open spec fn local_flat(p: BlockPos) -> int {
    chunk_index(p.x as int % 32, p.y as int % 32, p.z as int % 32)
}

/// The first index of `s` in `ps`.
pub open spec fn index_in(ps: Seq<ChunkSectionPos>, s: ChunkSectionPos) -> int {
    choose|i: int| 0 <= i < ps.len() && ps[i] == s
}

/// Two blocks with the same section and the same place in it are the same
/// block.
pub proof fn lemma_local_flat_injective(p: BlockPos, q: BlockPos)
    requires
        section_of(p) == section_of(q),
        local_flat(p) == local_flat(q),
    ensures
        p == q,
{
    lemma_block_index_roundtrip(p);
    lemma_block_index_roundtrip(q);
    let (px, py, pz) = (p.x as int % 32, p.y as int % 32, p.z as int % 32);
    let (qx, qy, qz) = (q.x as int % 32, q.y as int % 32, q.z as int % 32);
    assert(px == qx && py == qy && pz == qz) by (nonlinear_arith)
        requires
            0 <= px < 32,
            0 <= py < 32,
            0 <= pz < 32,
            0 <= qx < 32,
            0 <= qy < 32,
            0 <= qz < 32,
            1024 * px + 32 * pz + py == 1024 * qx + 32 * qz + qy,
    ;
}

proof fn lemma_push_contains<T>(s: Seq<T>, x: T)
    ensures
        forall|y: T| #[trigger] s.push(x).contains(y) <==> s.contains(y) || y == x,
        s.push(x).to_set() == s.to_set().insert(x),
{
    assert forall|y: T| #[trigger] s.push(x).contains(y) <==> s.contains(y) || y == x by {
        if s.contains(y) {
            let k = choose|k: int| 0 <= k < s.len() && s[k] == y;
            assert(s.push(x)[k] == y);
        }
        if s.push(x).contains(y) && y != x {
            let k = choose|k: int| 0 <= k < s.len() + 1 && s.push(x)[k] == y;
            assert(s[k] == y);
        }
        assert(s.push(x)[s.len() as int] == x);
    }
    assert(s.push(x).to_set() =~= s.to_set().insert(x));
}

/// The sum of `w` over the values of `s`.
pub open spec fn weight_sum(s: Seq<LightValue>, w: spec_fn(LightValue) -> int) -> int
    decreases s.len(),
{
    if s.len() == 0 {
        0
    } else {
        weight_sum(s.drop_last(), w) + w(s.last())
    }
}

/// The sum of `w` over the light values of all the sections.
pub open spec fn sections_weight_sum(ss: Seq<ChunkSectionInner>, w: spec_fn(LightValue) -> int) -> int
    decreases ss.len(),
{
    if ss.len() == 0 {
        0
    } else {
        sections_weight_sum(ss.drop_last(), w) + weight_sum(ss.last().light_data@, w)
    }
}

pub proof fn lemma_weight_sum_update(s: Seq<LightValue>, j: int, v: LightValue, w: spec_fn(LightValue) -> int)
    requires
        0 <= j < s.len(),
    ensures
        weight_sum(s.update(j, v), w) == weight_sum(s, w) - w(s[j]) + w(v),
    decreases s.len(),
{
    let t = s.update(j, v);
    if j == s.len() - 1 {
        assert(t.drop_last() =~= s.drop_last());
    } else {
        lemma_weight_sum_update(s.drop_last(), j, v, w);
        assert(t.drop_last() =~= s.drop_last().update(j, v));
    }
}

pub proof fn lemma_weight_sum_bounds(s: Seq<LightValue>, w: spec_fn(LightValue) -> int, lo: int, hi: int)
    requires
        forall|v: LightValue| lo <= #[trigger] w(v) <= hi,
    ensures
        lo * s.len() <= weight_sum(s, w) <= hi * s.len(),
    decreases s.len(),
{
    if s.len() > 0 {
        lemma_weight_sum_bounds(s.drop_last(), w, lo, hi);
        assert(lo <= w(s.last()) <= hi);
        assert(lo * s.len() == lo * (s.len() - 1) + lo) by (nonlinear_arith);
        assert(hi * s.len() == hi * (s.len() - 1) + hi) by (nonlinear_arith);
    }
}

pub proof fn lemma_sections_weight_sum_update(ss: Seq<ChunkSectionInner>, i: int, x: ChunkSectionInner, w: spec_fn(LightValue) -> int)
    requires
        0 <= i < ss.len(),
    ensures
        sections_weight_sum(ss.update(i, x), w) == sections_weight_sum(ss, w) - weight_sum(ss[i].light_data@, w) + weight_sum(x.light_data@, w),
    decreases ss.len(),
{
    let t = ss.update(i, x);
    if i == ss.len() - 1 {
        assert(t.drop_last() =~= ss.drop_last());
    } else {
        lemma_sections_weight_sum_update(ss.drop_last(), i, x, w);
        assert(t.drop_last() =~= ss.drop_last().update(i, x));
    }
}

pub proof fn lemma_sections_weight_sum_bounds(ss: Seq<ChunkSectionInner>, w: spec_fn(LightValue) -> int, lo: int, hi: int)
    requires
        forall|v: LightValue| lo <= #[trigger] w(v) <= hi,
        forall|i: int| 0 <= i < ss.len() ==> (#[trigger] ss[i]).light_data@.len() == 32768,
    ensures
        lo * 32768 * ss.len() <= sections_weight_sum(ss, w) <= hi * 32768 * ss.len(),
    decreases ss.len(),
{
    if ss.len() > 0 {
        lemma_sections_weight_sum_bounds(ss.drop_last(), w, lo, hi);
        lemma_weight_sum_bounds(ss.last().light_data@, w, lo, hi);
        assert(lo * 32768 * ss.len() == lo * 32768 * (ss.len() - 1) + lo * 32768) by (nonlinear_arith);
        assert(hi * 32768 * ss.len() == hi * 32768 * (ss.len() - 1) + hi * 32768) by (nonlinear_arith);
    }
}

/// A set of chunk sections that blocks and light are written to, and the
/// sections whose meshes the writes make stale.
pub struct MutableChunkAccess {
    rebuild: VecSet<ChunkSectionPos>,
    registry: BlockRegistry,
    sections: Vec<ChunkSectionInner>,
}

impl MutableChunkAccess {
    pub closed spec fn pos_seq(&self) -> Seq<ChunkSectionPos> {
        self.sections@.map_values(|s: ChunkSectionInner| s.pos)
    }

    /// The block's section is held.
    pub closed spec fn holds(&self, p: BlockPos) -> bool {
        self.pos_seq().contains(section_of(p))
    }

    pub closed spec fn section_of_block(&self, p: BlockPos) -> ChunkSectionInner {
        self.sections@[index_in(self.pos_seq(), section_of(p))]
    }

    /// The block at each held position.
    pub closed spec fn blocks(&self) -> Map<BlockPos, BlockId> {
        Map::new(
            |p: BlockPos| self.holds(p),
            |p: BlockPos| self.section_of_block(p).block_data@[local_flat(p)],
        )
    }

    /// The light at each held position.
    pub closed spec fn lights(&self) -> Map<BlockPos, LightValue> {
        Map::new(
            |p: BlockPos| self.holds(p),
            |p: BlockPos| self.section_of_block(p).light_data@[local_flat(p)],
        )
    }

    /// The sections whose meshes are stale.
    pub closed spec fn rebuild_set(&self) -> Set<ChunkSectionPos> {
        self.rebuild@
    }

    /// The positions of the held sections.
    pub closed spec fn section_set(&self) -> Set<ChunkSectionPos> {
        self.pos_seq().to_set()
    }

    pub closed spec fn registry_view(&self) -> BlockRegistry {
        self.registry
    }

    /// The sum of `w` over the light of every held block.
    pub closed spec fn light_weight(&self, w: spec_fn(LightValue) -> int) -> int {
        sections_weight_sum(self.sections@, w)
    }

    /// The number of held blocks.
    pub closed spec fn cell_count(&self) -> int {
        32768 * (self.sections@.len() as int)
    }

    /// The light sums lie between the bounds of the weight times the number
    /// of held blocks.
    pub proof fn lemma_light_weight_bounds(&self, w: spec_fn(LightValue) -> int, lo: int, hi: int)
        requires
            self.inv(),
            forall|v: LightValue| lo <= #[trigger] w(v) <= hi,
        ensures
            lo * self.cell_count() <= self.light_weight(w) <= hi * self.cell_count(),
            self.cell_count() >= 0,
    {
        assert forall|i: int| 0 <= i < self.sections@.len() implies (#[trigger] self.sections@[i]).light_data@.len() == 32768 by {
            assert(self.sections@[i].light_data.wf());
        }
        lemma_sections_weight_sum_bounds(self.sections@, w, lo, hi);
        assert(lo * 32768 * self.sections@.len() == lo * (32768 * self.sections@.len())) by (nonlinear_arith);
        assert(hi * 32768 * self.sections@.len() == hi * (32768 * self.sections@.len())) by (nonlinear_arith);
    }

    /// Each section is held once, with full data.
    pub closed spec fn inv(&self) -> bool {
        &&& self.rebuild.wf()
        &&& self.pos_seq().no_duplicates()
        &&& forall|i: int| 0 <= i < self.sections@.len() ==> (#[trigger] self.sections@[i]).block_data.wf() && self.sections@[i].light_data.wf()
    }

    /// Blocks and light are held at the same positions.
    pub proof fn lemma_same_domain(&self)
        ensures
            self.blocks().dom() == self.lights().dom(),
    {
        assert(self.blocks().dom() =~= self.lights().dom());
    }

    /// No section held and nothing to rebuild.
    pub fn new(registry: BlockRegistry) -> (r: Self)
        ensures
            r.inv(),
            r.registry_view() == registry,
            r.section_set() == Set::<ChunkSectionPos>::empty(),
            r.rebuild_set() == Set::<ChunkSectionPos>::empty(),
            r.blocks() == Map::<BlockPos, BlockId>::empty(),
            r.lights() == Map::<BlockPos, LightValue>::empty(),
    {
        let r = MutableChunkAccess { rebuild: VecSet::new(), registry, sections: Vec::new() };
        assert(r.pos_seq() =~= Seq::<ChunkSectionPos>::empty());
        assert(r.section_set() =~= Set::<ChunkSectionPos>::empty());
        assert(r.blocks() =~= Map::<BlockPos, BlockId>::empty());
        assert(r.lights() =~= Map::<BlockPos, LightValue>::empty());
        r
    }

    pub fn registry(&self) -> (r: &BlockRegistry)
        ensures
            *r == self.registry_view(),
    {
        &self.registry
    }

    /// The sections marked to be rebuilt.
    pub fn rebuild_sections(&self) -> (r: &[ChunkSectionPos])
        ensures
            r@.to_set() == self.rebuild_set(),
    {
        self.rebuild.as_slice()
    }

    /// Holds one more section.
    pub fn add_section(&mut self, section: ChunkSectionInner)
        requires
            old(self).inv(),
            !old(self).section_set().contains(section.pos),
            section.block_data.wf(),
            section.light_data.wf(),
        ensures
            final(self).inv(),
            final(self).registry_view() == old(self).registry_view(),
            final(self).rebuild_set() == old(self).rebuild_set(),
            final(self).section_set() == old(self).section_set().insert(section.pos),
            forall|p: BlockPos| section_of(p) != section.pos ==> (#[trigger] final(self).blocks().contains_key(p)) == old(self).blocks().contains_key(p),
            forall|p: BlockPos| #[trigger] old(self).blocks().contains_key(p) ==> final(self).blocks()[p] == old(self).blocks()[p] && final(self).lights()[p] == old(self).lights()[p],
            forall|p: BlockPos| section_of(p) == section.pos ==> #[trigger] final(self).blocks().contains_key(p)
                && final(self).blocks()[p] == section.block_data@[local_flat(p)]
                && final(self).lights()[p] == section.light_data@[local_flat(p)],
    {
        let ghost ps0 = self.pos_seq();
        let ghost secs0 = self.sections@;
        let ghost pos = section.pos;
        let ghost sec = section;
        self.sections.push(section);
        proof {
            assert(self.pos_seq() =~= ps0.push(pos));
            lemma_push_contains(ps0, pos);
            assert(!ps0.contains(pos));
            assert forall|a: int, b: int| 0 <= a < b < self.pos_seq().len() implies self.pos_seq()[a] != self.pos_seq()[b] by {
                if b == ps0.len() {
                    assert(ps0.contains(ps0[a]));
                }
            }
            assert(self.section_set() =~= old(self).section_set().insert(pos));
            assert forall|s: ChunkSectionPos| ps0.contains(s) implies index_in(self.pos_seq(), s) == index_in(ps0, s) && index_in(ps0, s) < ps0.len() by {
                let i = index_in(ps0, s);
                let j = index_in(self.pos_seq(), s);
                assert(self.pos_seq()[i] == s);
            }
            let n = ps0.len() as int;
            assert(self.pos_seq()[n] == pos);
            assert(index_in(self.pos_seq(), pos) == n);
            assert forall|p: BlockPos| section_of(p) == pos implies #[trigger] self.blocks().contains_key(p)
                && self.blocks()[p] == sec.block_data@[local_flat(p)]
                && self.lights()[p] == sec.light_data@[local_flat(p)] by {
                assert(self.pos_seq().contains(pos));
            }
            assert forall|p: BlockPos| #[trigger] old(self).blocks().contains_key(p) implies self.blocks()[p] == old(self).blocks()[p] && self.lights()[p] == old(self).lights()[p] by {
                assert(ps0.contains(section_of(p)));
                assert(self.pos_seq().contains(section_of(p)));
            }
            assert forall|p: BlockPos| section_of(p) != pos implies (#[trigger] self.blocks().contains_key(p)) == old(self).blocks().contains_key(p) by {
                if self.pos_seq().contains(section_of(p)) {
                    let k = choose|k: int| 0 <= k < self.pos_seq().len() && self.pos_seq()[k] == section_of(p);
                    assert(k < n);
                    assert(ps0[k] == section_of(p));
                }
            }
        }
    }

    fn find_section(&self, pos: ChunkSectionPos) -> (r: Option<usize>)
        requires
            self.inv(),
        ensures
            r matches Some(i) ==> i < self.sections@.len() && i == index_in(self.pos_seq(), pos) && self.pos_seq()[i as int] == pos,
            r is None ==> !self.pos_seq().contains(pos),
    {
        let mut i: usize = 0;
        while i < self.sections.len()
            invariant
                self.inv(),
                i <= self.sections@.len(),
                forall|j: int| 0 <= j < i ==> self.pos_seq()[j] != pos,
            decreases self.sections@.len() - i,
        {
            if self.sections[i].pos == pos {
                proof {
                    let k = index_in(self.pos_seq(), pos);
                    assert(self.pos_seq()[i as int] == pos);
                    assert(0 <= k < self.pos_seq().len() && self.pos_seq()[k] == pos);
                }
                return Some(i);
            }
            i += 1;
        }
        None
    }

    /// The section at `pos` is held.
    pub fn holds_section(&self, pos: ChunkSectionPos) -> (r: bool)
        requires
            self.inv(),
        ensures
            r == self.section_set().contains(pos),
    {
        self.find_section(pos).is_some()
    }

    pub fn block(&self, pos: BlockPos) -> (r: Option<BlockId>)
        requires
            self.inv(),
        ensures
            r == if self.blocks().contains_key(pos) {
                Some(self.blocks()[pos])
            } else {
                None::<BlockId>
            },
    {
        let (section_pos, chunk_index) = pos.section_and_offset();
        match self.find_section(section_pos) {
            Some(i) => {
                proof {
                    assert(flat_index(chunk_index) == local_flat(pos));
                }
                Some(self.sections[i].block_data.get(chunk_index))
            },
            None => None,
        }
    }

    pub fn light(&self, pos: BlockPos) -> (r: Option<LightValue>)
        requires
            self.inv(),
        ensures
            r == if self.lights().contains_key(pos) {
                Some(self.lights()[pos])
            } else {
                None::<LightValue>
            },
    {
        let (section_pos, chunk_index) = pos.section_and_offset();
        match self.find_section(section_pos) {
            Some(i) => {
                proof {
                    assert(flat_index(chunk_index) == local_flat(pos));
                }
                Some(self.sections[i].light_data.get(chunk_index))
            },
            None => None,
        }
    }

    #[verifier::spinoff_prover]
    #[verifier::rlimit(40)]
    proof fn lemma_write(a: Self, b: Self, p: BlockPos, blocks: bool, v_block: BlockId, v_light: LightValue)
        requires
            a.inv(),
            a.holds(p),
            b.pos_seq() == a.pos_seq(),
            b.sections@.len() == a.sections@.len(),
            forall|j: int| 0 <= j < a.sections@.len() && j != index_in(a.pos_seq(), section_of(p)) ==> #[trigger] b.sections@[j] == a.sections@[j],
            ({
                let i = index_in(a.pos_seq(), section_of(p));
                let s0 = a.sections@[i];
                let s1 = b.sections@[i];
                if blocks {
                    s1.block_data@ == s0.block_data@.update(local_flat(p), v_block) && s1.light_data@ == s0.light_data@
                } else {
                    s1.light_data@ == s0.light_data@.update(local_flat(p), v_light) && s1.block_data@ == s0.block_data@
                }
            }),
        ensures
            blocks ==> b.blocks() == a.blocks().insert(p, v_block) && b.lights() == a.lights(),
            !blocks ==> b.lights() == a.lights().insert(p, v_light) && b.blocks() == a.blocks(),
            b.cell_count() == a.cell_count(),
            forall|w: spec_fn(LightValue) -> int| #[trigger] b.light_weight(w) == a.light_weight(w) - w(a.lights()[p]) + w(b.lights()[p]),
    {
        let i = index_in(a.pos_seq(), section_of(p));
        assert(b.sections@ =~= a.sections@.update(i, b.sections@[i]));
        assert forall|w: spec_fn(LightValue) -> int| #[trigger] b.light_weight(w) == a.light_weight(w) - w(a.lights()[p]) + w(b.lights()[p]) by {
            lemma_sections_weight_sum_update(a.sections@, i, b.sections@[i], w);
            assert(0 <= local_flat(p) < 32768) by {
                lemma_block_index_roundtrip(p);
            }
            assert(a.sections@[i].light_data@.len() == 32768) by {
                assert(a.sections@[i].light_data.wf());
            }
            if !blocks {
                lemma_weight_sum_update(a.sections@[i].light_data@, local_flat(p), v_light, w);
            } else {
                assert(b.sections@[i].light_data@ == a.sections@[i].light_data@);
            }
        }
        assert(0 <= i < a.pos_seq().len() && a.pos_seq()[i] == section_of(p));
        assert forall|q: BlockPos| #[trigger] a.holds(q) && q != p implies b.section_of_block(q).block_data@[local_flat(q)] == a.section_of_block(q).block_data@[local_flat(q)]
            && b.section_of_block(q).light_data@[local_flat(q)] == a.section_of_block(q).light_data@[local_flat(q)] by {
            let k = index_in(a.pos_seq(), section_of(q));
            assert(0 <= k < a.pos_seq().len() && a.pos_seq()[k] == section_of(q));
            if k == i {
                assert(section_of(q) == section_of(p));
                if local_flat(q) == local_flat(p) {
                    lemma_local_flat_injective(p, q);
                }
                assert(0 <= local_flat(q) < 32768) by {
                    lemma_block_index_roundtrip(q);
                }
            }
        }
        assert(0 <= local_flat(p) < 32768) by {
            lemma_block_index_roundtrip(p);
        }
        if blocks {
            assert(b.blocks() =~= a.blocks().insert(p, v_block));
            assert(b.lights() =~= a.lights());
        } else {
            assert(b.lights() =~= a.lights().insert(p, v_light));
            assert(b.blocks() =~= a.blocks());
        }
    }

    /// Sets the block at `pos`, and marks its section stale when the block
    /// changes; `None` when the section is not held.
    pub fn set_block(&mut self, pos: BlockPos, id: BlockId) -> (r: Option<()>)
        requires
            old(self).inv(),
        ensures
            final(self).inv(),
            final(self).registry_view() == old(self).registry_view(),
            final(self).section_set() == old(self).section_set(),
            final(self).cell_count() == old(self).cell_count(),
            forall|w: spec_fn(LightValue) -> int| #[trigger] final(self).light_weight(w) == old(self).light_weight(w) - (if old(self).lights().contains_key(pos) { w(old(self).lights()[pos]) } else { 0 }) + (if old(self).lights().contains_key(pos) { w(final(self).lights()[pos]) } else { 0 }),
            final(self).lights() == old(self).lights(),
            r is None <==> !old(self).blocks().contains_key(pos),
            r is None ==> final(self).blocks() == old(self).blocks() && final(self).rebuild_set() == old(self).rebuild_set(),
            r is Some ==> final(self).blocks() == old(self).blocks().insert(pos, id),
            r is Some ==> final(self).rebuild_set() == if old(self).blocks()[pos] != id {
                old(self).rebuild_set().insert(section_of(pos))
            } else {
                old(self).rebuild_set()
            },
    {
        let (section_pos, chunk_index) = pos.section_and_offset();
        let i = match self.find_section(section_pos) {
            Some(i) => i,
            None => return None,
        };
        proof {
            assert(flat_index(chunk_index) == local_flat(pos));
            assert(self.sections@[i as int].block_data.wf());
        }
        let prev = self.sections[i].block_data.get(chunk_index);
        if id != prev {
            let ghost a = *self;
            self.sections[i].block_data.set(chunk_index, id);
            self.rebuild.insert(ChunkSectionPos::from(pos));
            proof {
                assert(self.pos_seq() =~= a.pos_seq());
                assert forall|j: int| 0 <= j < self.sections@.len() implies (#[trigger] self.sections@[j]).block_data.wf() && self.sections@[j].light_data.wf() by {
                    if j != i {
                        assert(self.sections@[j] == a.sections@[j]);
                    }
                }
                Self::lemma_write(a, *self, pos, true, id, LightValue(0));
                assert(self.section_set() == a.section_set());
            }
        } else {
            proof {
                assert(old(self).blocks().insert(pos, id) =~= old(self).blocks());
            }
        }
        Some(())
    }

    /// Sets the sky level of the light at `pos`, and marks its section stale
    /// when the light changes; `None` when the section is not held.
    pub fn set_sky_light(&mut self, pos: BlockPos, light: u16) -> (r: Option<()>)
        requires
            old(self).inv(),
        ensures
            final(self).inv(),
            final(self).registry_view() == old(self).registry_view(),
            final(self).section_set() == old(self).section_set(),
            final(self).cell_count() == old(self).cell_count(),
            forall|w: spec_fn(LightValue) -> int| #[trigger] final(self).light_weight(w) == old(self).light_weight(w) - (if old(self).lights().contains_key(pos) { w(old(self).lights()[pos]) } else { 0 }) + (if old(self).lights().contains_key(pos) { w(final(self).lights()[pos]) } else { 0 }),
            final(self).blocks() == old(self).blocks(),
            r is None <==> !old(self).lights().contains_key(pos),
            r is None ==> final(self).lights() == old(self).lights() && final(self).rebuild_set() == old(self).rebuild_set(),
            r is Some ==> {
                let prev = old(self).lights()[pos];
                &&& light == prev.0 / 16 ==> final(self).lights() == old(self).lights() && final(self).rebuild_set() == old(self).rebuild_set()
                &&& light != prev.0 / 16 ==> final(self).lights() == old(self).lights().insert(pos, LightValue(((light % 16) * 16 + prev.0 % 16) as u16))
                    && final(self).rebuild_set() == old(self).rebuild_set().insert(section_of(pos))
            },
    {
        let (section_pos, chunk_index) = pos.section_and_offset();
        let i = match self.find_section(section_pos) {
            Some(i) => i,
            None => return None,
        };
        proof {
            assert(flat_index(chunk_index) == local_flat(pos));
            assert(self.sections@[i as int].light_data.wf());
        }
        let prev = self.sections[i].light_data.get(chunk_index);
        if light != prev.sky() {
            let ghost a = *self;
            let v = LightValue::pack(light, prev.block());
            self.sections[i].light_data.set(chunk_index, v);
            self.rebuild.insert(ChunkSectionPos::from(pos));
            proof {
                assert(self.pos_seq() =~= a.pos_seq());
                assert forall|j: int| 0 <= j < self.sections@.len() implies (#[trigger] self.sections@[j]).block_data.wf() && self.sections@[j].light_data.wf() by {
                    if j != i {
                        assert(self.sections@[j] == a.sections@[j]);
                    }
                }
                Self::lemma_write(a, *self, pos, false, BlockId(0), v);
                assert(self.section_set() == a.section_set());
            }
        }
        Some(())
    }

    /// Sets the block level of the light at `pos`, and marks its section
    /// stale when the light changes; `None` when the section is not held.
    pub fn set_block_light(&mut self, pos: BlockPos, light: u16) -> (r: Option<()>)
        requires
            old(self).inv(),
        ensures
            final(self).inv(),
            final(self).registry_view() == old(self).registry_view(),
            final(self).section_set() == old(self).section_set(),
            final(self).cell_count() == old(self).cell_count(),
            forall|w: spec_fn(LightValue) -> int| #[trigger] final(self).light_weight(w) == old(self).light_weight(w) - (if old(self).lights().contains_key(pos) { w(old(self).lights()[pos]) } else { 0 }) + (if old(self).lights().contains_key(pos) { w(final(self).lights()[pos]) } else { 0 }),
            final(self).blocks() == old(self).blocks(),
            r is None <==> !old(self).lights().contains_key(pos),
            r is None ==> final(self).lights() == old(self).lights() && final(self).rebuild_set() == old(self).rebuild_set(),
            r is Some ==> {
                let prev = old(self).lights()[pos];
                &&& light == prev.0 % 16 ==> final(self).lights() == old(self).lights() && final(self).rebuild_set() == old(self).rebuild_set()
                &&& light != prev.0 % 16 ==> final(self).lights() == old(self).lights().insert(pos, LightValue((((prev.0 / 16) % 16) * 16 + light % 16) as u16))
                    && final(self).rebuild_set() == old(self).rebuild_set().insert(section_of(pos))
            },
    {
        let (section_pos, chunk_index) = pos.section_and_offset();
        let i = match self.find_section(section_pos) {
            Some(i) => i,
            None => return None,
        };
        proof {
            assert(flat_index(chunk_index) == local_flat(pos));
            assert(self.sections@[i as int].light_data.wf());
        }
        let prev = self.sections[i].light_data.get(chunk_index);
        if light != prev.block() {
            let ghost a = *self;
            let v = LightValue::pack(prev.sky(), light);
            self.sections[i].light_data.set(chunk_index, v);
            self.rebuild.insert(ChunkSectionPos::from(pos));
            proof {
                assert(self.pos_seq() =~= a.pos_seq());
                assert forall|j: int| 0 <= j < self.sections@.len() implies (#[trigger] self.sections@[j]).block_data.wf() && self.sections@[j].light_data.wf() by {
                    if j != i {
                        assert(self.sections@[j] == a.sections@[j]);
                    }
                }
                Self::lemma_write(a, *self, pos, false, BlockId(0), v);
                assert(self.section_set() == a.section_set());
            }
        }
        Some(())
    }

    /// The blocks of a held section, in storage order.
    pub closed spec fn section_blocks(&self, pos: ChunkSectionPos) -> Seq<BlockId> {
        self.sections@[index_in(self.pos_seq(), pos)].block_data@
    }

    /// A block is held exactly when its section is.
    pub proof fn lemma_holds(&self, p: BlockPos)
        ensures
            self.blocks().contains_key(p) == self.section_set().contains(section_of(p)),
            self.lights().contains_key(p) == self.section_set().contains(section_of(p)),
    {
    }

    /// A held section has one block per place.
    pub proof fn lemma_section_len(&self, pos: ChunkSectionPos)
        requires
            self.inv(),
            self.section_set().contains(pos),
        ensures
            self.section_blocks(pos).len() == 32768,
    {
        let i = index_in(self.pos_seq(), pos);
        assert(self.pos_seq().contains(pos));
        assert(0 <= i < self.pos_seq().len() && self.pos_seq()[i] == pos);
        assert(self.sections@[i].block_data.wf());
    }

    /// A held block is the block of its section at its place in storage.
    pub proof fn lemma_block_in_section(&self, p: BlockPos)
        requires
            self.blocks().contains_key(p),
        ensures
            self.blocks()[p] == self.section_blocks(section_of(p))[local_flat(p)],
    {
    }

    /// Writes blocks of the held section at `pos`, as
    /// [`write_section_block_updates`] does; `false`, with nothing changed,
    /// when the section is not held.
    pub fn write_section_blocks(&mut self, ctx: &mut ChunkUpdateContext, pos: ChunkSectionPos, updates: &[ChunkSectionUpdate]) -> (r: bool)
        requires
            old(self).inv(),
            old(ctx).wf(),
            section_at(old(ctx).chunk, pos.y) == pos,
            section_in_range(pos),
            forall|i: int| 0 <= i < updates@.len() ==> in_bounds(#[trigger] updates@[i].index),
        ensures
            final(self).inv(),
            final(ctx).wf(),
            final(ctx).chunk == old(ctx).chunk,
            final(self).registry_view() == old(self).registry_view(),
            final(self).section_set() == old(self).section_set(),
            final(self).rebuild_set() == old(self).rebuild_set(),
            final(self).lights() == old(self).lights(),
            final(self).blocks().dom() == old(self).blocks().dom(),
            r == old(self).section_set().contains(pos),
            !r ==> final(self).blocks() == old(self).blocks() && *final(ctx) == *old(ctx),
            r ==> final(self).section_blocks(pos) == apply_updates(old(self).section_blocks(pos), updates@),
            r ==> forall|p: BlockPos| #[trigger] final(self).blocks().contains_key(p) && section_of(p) != pos ==> final(self).blocks()[p] == old(self).blocks()[p],
            r ==> final(ctx).block_updates@ == recorded_updates(old(ctx).block_updates@, old(self).section_blocks(pos), updates@, pos),
            r ==> final(ctx).rebuild@ == old(ctx).rebuild@.union(stale_sections(old(self).section_blocks(pos), updates@, pos)),
    {
        let i = match self.find_section(pos) {
            Some(i) => i,
            None => return false,
        };
        let ghost a = *self;
        proof {
            assert(self.sections@[i as int].block_data.wf());
        }
        write_section_block_updates(&mut self.sections[i].block_data, ctx, pos.y, updates);
        proof {
            assert(self.pos_seq() =~= a.pos_seq());
            assert forall|j: int| 0 <= j < self.sections@.len() implies (#[trigger] self.sections@[j]).block_data.wf() && self.sections@[j].light_data.wf() by {
                if j != i {
                    assert(self.sections@[j] == a.sections@[j]);
                } else {
                    assert(a.sections@[j].light_data.wf());
                }
            }
            assert(self.lights() =~= a.lights());
            assert(self.blocks().dom() =~= a.blocks().dom());
            assert forall|p: BlockPos| #[trigger] self.blocks().contains_key(p) && section_of(p) != pos implies self.blocks()[p] == a.blocks()[p] by {
                let k = index_in(a.pos_seq(), section_of(p));
                assert(0 <= k < a.pos_seq().len() && a.pos_seq()[k] == section_of(p));
                assert(k != i);
            }
            assert(self.section_set() == a.section_set());
        }
        true
    }
}

} // verus!
