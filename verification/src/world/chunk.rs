use super::registry::BlockId;
use super::{section_of, BlockPos, ChunkPos};
use crate::codec::encode::{
    expand_runs, lemma_rle_runs, rle_list_encoding, rle_runs, runs_list_encoding,
    runs_with_lengths, Encode, Encoder,
};
use crate::codec::NodeKind;
use crate::util::{spec_floor_div, ConcreteEq};
use vstd::prelude::*;
use vstd::std_specs::cmp::PartialEqSpecImpl;

verus! {

/// The width of a chunk is `2 ^ CHUNK_LENGTH_BITS`.
pub const CHUNK_LENGTH_BITS: usize = 5;

pub const CHUNK_LENGTH: usize = 32;

pub const CHUNK_LENGTH_2: usize = 1024;

pub const CHUNK_LENGTH_3: usize = 32768;

/// The position of a chunk section, in units of sections.
#[derive(Copy, Clone, Debug, Eq, Ord, PartialOrd, Hash)]
pub struct ChunkSectionPos {
    pub x: i32,
    pub y: i32,
    pub z: i32,
}

impl PartialEq for ChunkSectionPos {
    fn eq(&self, other: &Self) -> (r: bool) {
        self.x == other.x && self.y == other.y && self.z == other.z
    }
}

impl PartialEqSpecImpl for ChunkSectionPos {
    open spec fn obeys_eq_spec() -> bool {
        true
    }

    open spec fn eq_spec(&self, other: &Self) -> bool {
        self.x == other.x && self.y == other.y && self.z == other.z
    }
}

impl ConcreteEq for ChunkSectionPos {
    proof fn lemma_eq_is_equality() {
        reveal(vstd::laws_eq::obeys_concrete_eq);
    }
}

impl ChunkSectionPos {
    pub fn column(&self) -> (r: ChunkPos)
        ensures
            r == (ChunkPos { x: self.x, z: self.z }),
    {
        ChunkPos { x: self.x, z: self.z }
    }
}


/// A position inside a chunk section, one index per axis.
pub type ChunkSectionIndex = [usize; 3];

/// A position inside a chunk column.
pub type ChunkIndex = [usize; 2];

/// Where the block at `(x, y, z)` of a section lives in its flat storage; the
/// data order is XZY.
pub open spec fn chunk_index(x: int, y: int, z: int) -> int {
    1024 * x + 32 * z + y
}

pub open spec fn in_bounds(index: ChunkSectionIndex) -> bool {
    index[0] < 32 && index[1] < 32 && index[2] < 32
}

pub open spec fn flat_index(index: ChunkSectionIndex) -> int {
    chunk_index(index[0] as int, index[1] as int, index[2] as int)
}

proof fn lemma_flat_index_in_range(index: ChunkSectionIndex)
    requires
        in_bounds(index),
    ensures
        0 <= flat_index(index) < 32768,
{
}

/// The blocks (or light values) of one chunk section.
#[derive(Clone, Debug, Eq, PartialEq, Hash)]
pub struct ArrayChunk<T> {
    // data order is XZY
    data: Vec<T>,
}

impl<T> View for ArrayChunk<T> {
    type V = Seq<T>;

    closed spec fn view(&self) -> Seq<T> {
        self.data@
    }
}

impl<T> ArrayChunk<T> {
    /// The chunk holds exactly one value per block of a section.
    pub open spec fn wf(&self) -> bool {
        self@.len() == CHUNK_LENGTH_3
    }
}

impl<T: Copy> ArrayChunk<T> {
    pub fn homogeneous(id: T) -> (r: Self)
        ensures
            r.wf(),
            r@ == Seq::new(CHUNK_LENGTH_3 as nat, |_i: int| id),
    {
        let mut data: Vec<T> = Vec::with_capacity(CHUNK_LENGTH_3);
        let mut i: usize = 0;
        while i < CHUNK_LENGTH_3
            invariant
                i <= CHUNK_LENGTH_3,
                data@ == Seq::new(i as nat, |_i: int| id),
            decreases CHUNK_LENGTH_3 - i,
        {
            data.push(id);
            i += 1;
            assert(data@ =~= Seq::new(i as nat, |_i: int| id));
        }
        ArrayChunk { data }
    }

    /// The values, in storage order.
    pub fn data(&self) -> (r: &[T])
        ensures
            r@ == self@,
    {
        self.data.as_slice()
    }

    /// The value at `index`.
    pub fn get(&self, index: ChunkSectionIndex) -> (r: T)
        requires
            self.wf(),
            in_bounds(index),
        ensures
            r == self@[flat_index(index)],
    {
        self.data[CHUNK_LENGTH_2 * index[0] + CHUNK_LENGTH * index[2] + index[1]]
    }

    /// Writes the value at `index`.
    pub fn set(&mut self, index: ChunkSectionIndex, value: T)
        requires
            old(self).wf(),
            in_bounds(index),
        ensures
            final(self).wf(),
            final(self)@ == old(self)@.update(flat_index(index), value),
    {
        self.data.set(CHUNK_LENGTH_2 * index[0] + CHUNK_LENGTH * index[2] + index[1], value);
    }
}

/// An error that tells that a slice had the wrong length to be a chunk.
#[derive(Debug)]
pub struct ChunkTryFromError {
    provided_size: usize,
    expected_size: usize,
}

impl ChunkTryFromError {
    pub closed spec fn spec_provided_size(&self) -> usize {
        self.provided_size
    }

    pub closed spec fn spec_expected_size(&self) -> usize {
        self.expected_size
    }

    pub fn provided_size(&self) -> (r: usize)
        ensures
            r == self.spec_provided_size(),
    {
        self.provided_size
    }

    pub fn expected_size(&self) -> (r: usize)
        ensures
            r == self.spec_expected_size(),
    {
        self.expected_size
    }
}

impl<T> ArrayChunk<T> {
    /// Takes `data` as the storage of a chunk, when it has one value per block.
    pub fn try_from(data: Vec<T>) -> (r: Result<Self, ChunkTryFromError>)
        ensures
            data@.len() == CHUNK_LENGTH_3 <==> r is Ok,
            r matches Ok(c) ==> c@ == data@ && c.wf(),
            r matches Err(e) ==> e.spec_provided_size() == data@.len() && e.spec_expected_size()
                == CHUNK_LENGTH_3,
    {
        if data.len() != CHUNK_LENGTH_3 {
            return Err(ChunkTryFromError { provided_size: data.len(), expected_size: CHUNK_LENGTH_3 });
        }
        Ok(ArrayChunk { data })
    }
}

/// The data of a chunk section: either one value everywhere, or one value per
/// block.
#[derive(Clone, Debug, Eq, PartialEq, Hash)]
pub enum ChunkData<T> {
    Homogeneous(T),
    Array(ArrayChunk<T>),
}

impl<T> View for ChunkData<T> {
    type V = Seq<T>;

    open spec fn view(&self) -> Seq<T> {
        match self {
            ChunkData::Homogeneous(v) => Seq::new(CHUNK_LENGTH_3 as nat, |_i: int| *v),
            ChunkData::Array(a) => a@,
        }
    }
}

impl<T> ChunkData<T> {
    pub open spec fn wf(&self) -> bool {
        match self {
            ChunkData::Homogeneous(_) => true,
            ChunkData::Array(a) => a.wf(),
        }
    }
}

impl<T: Copy + ConcreteEq> ChunkData<T> {
    pub fn get(&self, index: ChunkSectionIndex) -> (r: T)
        requires
            self.wf(),
            in_bounds(index),
        ensures
            r == self@[flat_index(index)],
    {
        match self {
            ChunkData::Homogeneous(value) => *value,
            ChunkData::Array(data) => data.get(index),
        }
    }

    /// Writes `new_value` at `index`. A section of one value that already
    /// is `new_value` stays as it is, whatever the index.
    pub fn set(&mut self, index: ChunkSectionIndex, new_value: T)
        requires
            old(self).wf(),
            in_bounds(index) || *old(self) == ChunkData::Homogeneous(new_value),
        ensures
            final(self).wf(),
            in_bounds(index) ==> final(self)@ == old(self)@.update(flat_index(index), new_value),
            *old(self) == ChunkData::Homogeneous(new_value) ==> *final(self) == *old(self),
    {
        proof {
            T::lemma_eq_is_equality();
            reveal(vstd::laws_eq::obeys_concrete_eq);
        }
        match self {
            ChunkData::Homogeneous(value) => {
                let value = *value;
                if value == new_value {
                    proof {
                        if in_bounds(index) {
                            assert(old(self)@.update(flat_index(index), new_value) =~= old(self)@);
                        }
                    }
                } else {
                    let mut array_chunk = ArrayChunk::homogeneous(value);
                    array_chunk.set(index, new_value);
                    *self = ChunkData::Array(array_chunk);
                }
            },
            ChunkData::Array(data) => data.set(index, new_value),
        }
    }
}

pub fn is_in_chunk_bounds(x: usize, y: usize, z: usize) -> (r: bool)
    ensures
        r == (x < 32 && y < 32 && z < 32),
{
    x < CHUNK_LENGTH && y < CHUNK_LENGTH && z < CHUNK_LENGTH
}

/// The offset of a world coordinate inside its section.
pub fn pos_to_index(pos: i32) -> (r: usize)
    ensures
        r == pos as int % 32,
        r < 32,
{
    let r = pos.checked_rem_euclid(CHUNK_LENGTH as i32).unwrap();
    r as usize
}

/// The world coordinate of offset `index` in the section at `chunk_pos`.
pub fn index_to_pos(chunk_pos: i32, index: usize) -> (r: i32)
    requires
        index <= i32::MAX,
        i32::MIN <= 32 * chunk_pos <= i32::MAX,
        i32::MIN <= 32 * chunk_pos + index <= i32::MAX,
    ensures
        r == 32 * chunk_pos + index,
{
    let len = CHUNK_LENGTH as i32;
    assert(len == 32);
    chunk_pos * len + index as i32
}

pub fn block_to_index(pos: BlockPos) -> (r: ChunkSectionIndex)
    ensures
        r[0] == pos.x as int % 32,
        r[1] == pos.y as int % 32,
        r[2] == pos.z as int % 32,
        in_bounds(r),
{
    [pos_to_index(pos.x), pos_to_index(pos.y), pos_to_index(pos.z)]
}

pub fn index_to_block(section: ChunkSectionPos, index: ChunkSectionIndex) -> (r: BlockPos)
    requires
        index[0] <= i32::MAX && index[1] <= i32::MAX && index[2] <= i32::MAX,
        i32::MIN <= 32 * section.x <= i32::MAX,
        i32::MIN <= 32 * section.y <= i32::MAX,
        i32::MIN <= 32 * section.z <= i32::MAX,
        i32::MIN <= 32 * section.x + index[0] <= i32::MAX,
        i32::MIN <= 32 * section.y + index[1] <= i32::MAX,
        i32::MIN <= 32 * section.z + index[2] <= i32::MAX,
    ensures
        r.x == 32 * section.x + index[0],
        r.y == 32 * section.y + index[1],
        r.z == 32 * section.z + index[2],
{
    BlockPos {
        x: index_to_pos(section.x, index[0]),
        y: index_to_pos(section.y, index[1]),
        z: index_to_pos(section.z, index[2]),
    }
}

/// A block is found again from its section and its offset in that section.
pub proof fn lemma_block_index_roundtrip(pos: BlockPos)
    ensures
        32 * section_of(pos).x + pos.x as int % 32 == pos.x,
        32 * section_of(pos).y + pos.y as int % 32 == pos.y,
        32 * section_of(pos).z + pos.z as int % 32 == pos.z,
{
    assert(32 * spec_floor_div(pos.x as int, 32) + pos.x as int % 32 == pos.x) by (nonlinear_arith);
    assert(32 * spec_floor_div(pos.y as int, 32) + pos.y as int % 32 == pos.y) by (nonlinear_arith);
    assert(32 * spec_floor_div(pos.z as int, 32) + pos.z as int % 32 == pos.z) by (nonlinear_arith);
}

/// A block position inside a chunk column.
#[derive(Copy, Clone, Debug, Eq, PartialEq, Hash)]
pub struct LocalChunkPos {
    pub xz: ChunkIndex,
    pub y: i32,
}

/// An offset inside a chunk section.
#[derive(Copy, Clone, Debug, Eq, PartialEq, Ord, PartialOrd, Hash)]
pub struct ChunkOffset {
    x: u16,
    y: u16,
    z: u16,
}

impl ChunkOffset {
    pub closed spec fn coords(&self) -> (u16, u16, u16) {
        (self.x, self.y, self.z)
    }

    pub fn new(x: u16, y: u16, z: u16) -> (r: Self)
        ensures
            r.coords() == (x, y, z),
    {
        Self { x, y, z }
    }
}

/// One block that changed, with its previous and its new value.
#[derive(Copy, Clone, Debug, Eq, PartialEq, Hash)]
pub struct BlockUpdate {
    pub old_id: BlockId,
    pub new_id: BlockId,
}

/// A write of one block of a section, waiting to be applied.
#[derive(Copy, Clone, Debug, Eq, PartialEq, Hash)]
pub struct ChunkSectionUpdate {
    pub index: ChunkSectionIndex,
    pub id: BlockId,
}

/// A section stored as runs of equal blocks.
#[derive(Clone, Debug, Eq, PartialEq, Hash)]
pub struct CompactedChunkSection {
    runs: Vec<(usize, BlockId)>,
}

impl View for CompactedChunkSection {
    type V = Seq<(nat, BlockId)>;

    closed spec fn view(&self) -> Seq<(nat, BlockId)> {
        runs_with_lengths(self.runs@)
    }
}

/// The runs that `compact` makes of a section's data.
pub open spec fn compacted_runs(data: ChunkData<BlockId>) -> Seq<(nat, BlockId)> {
    match data {
        ChunkData::Homogeneous(id) => seq![(1nat, id)],
        ChunkData::Array(a) => rle_runs(a@),
    }
}

/// The blocks that a list of runs stands for, as `decompact` reads them: a
/// single run fills the whole section.
pub open spec fn decompacted(runs: Seq<(nat, BlockId)>) -> Seq<BlockId> {
    if runs.len() == 1 {
        Seq::new(CHUNK_LENGTH_3 as nat, |_i: int| runs[0].1)
    } else {
        expand_runs(runs)
    }
}

/// The runs can be read back into a section.
pub open spec fn decompactable(runs: Seq<(nat, BlockId)>) -> bool {
    runs.len() == 1 || expand_runs(runs).len() == CHUNK_LENGTH_3
}

proof fn lemma_expand_runs_prefix<T>(runs: Seq<(nat, T)>, i: int)
    requires
        0 <= i <= runs.len(),
    ensures
        expand_runs(runs.take(i)).len() <= expand_runs(runs).len(),
        expand_runs(runs.take(i)) == expand_runs(runs).take(expand_runs(runs.take(i)).len() as int),
    decreases runs.len() - i,
{
    if i < runs.len() {
        lemma_expand_runs_prefix(runs, i + 1);
        let t = runs.take(i + 1);
        assert(t.drop_last() =~= runs.take(i));
        assert(expand_runs(t) == expand_runs(runs.take(i)) + Seq::new(t.last().0, |_j: int| t.last().1));
        assert(expand_runs(runs.take(i)) =~= expand_runs(t).take(expand_runs(runs.take(i)).len() as int));
    } else {
        assert(runs.take(i) =~= runs);
    }
}

impl CompactedChunkSection {
    pub fn compact(data: &ChunkData<BlockId>) -> (r: Self)
        requires
            data.wf(),
        ensures
            r@ == compacted_runs(*data),
    {
        match data {
            ChunkData::Homogeneous(id) => {
                let runs = vec![(1usize, *id)];
                let r = Self { runs };
                assert(r@ =~= compacted_runs(*data));
                r
            },
            ChunkData::Array(array) => {
                proof {
                    BlockId::lemma_eq_is_equality();
                    reveal(vstd::laws_eq::obeys_concrete_eq);
                }
                let ghost s = array@;
                let mut current_run: usize = 1;
                let mut current_id = array.data[0];
                let mut runs: Vec<(usize, BlockId)> = Vec::new();
                let mut i: usize = 1;
                assert(s.take(1).drop_last() =~= Seq::<BlockId>::empty());
                assert(rle_runs(s.take(0)) =~= Seq::<(nat, BlockId)>::empty());
                assert(s.take(0) =~= s.take(1).drop_last());
                assert(rle_runs(s.take(1)) =~= seq![(1nat, s[0])]);
                while i < array.data.len()
                    invariant
                        vstd::laws_eq::obeys_concrete_eq::<BlockId>(),
                        s == array@,
                        s.len() == CHUNK_LENGTH_3,
                        1 <= i <= s.len(),
                        1 <= current_run <= i,
                        rle_runs(s.take(i as int)).len() > 0,
                        rle_runs(s.take(i as int)).last() == (current_run as nat, current_id),
                        runs_with_lengths(runs@) == rle_runs(s.take(i as int)).drop_last(),
                    decreases s.len() - i,
                {
                    let ghost r = rle_runs(s.take(i as int));
                    assert(s.take(i + 1).drop_last() =~= s.take(i as int));
                    let id = array.data[i];
                    proof {
                        reveal(vstd::laws_eq::obeys_concrete_eq);
                    }
                    if current_id != id {
                        runs.push((current_run, current_id));
                        proof {
                            assert(rle_runs(s.take(i + 1)) == r.push((1nat, id)));
                            assert(r.push((1nat, id)).drop_last() =~= r);
                            assert(r.drop_last().push(r.last()) =~= r);
                            assert(runs_with_lengths(runs@) =~= r);
                        }
                        current_run = 1;
                        current_id = id;
                    } else {
                        proof {
                            assert(rle_runs(s.take(i + 1)) == r.update(
                                r.len() - 1,
                                ((r.last().0 + 1) as nat, id),
                            ));
                            assert(r.update(r.len() - 1, ((r.last().0 + 1) as nat, id)).drop_last()
                                =~= r.drop_last());
                        }
                        current_run += 1;
                    }
                    i += 1;
                }
                let ghost r = rle_runs(s.take(i as int));
                runs.push((current_run, current_id));
                proof {
                    assert(s.take(i as int) =~= s);
                    assert(r.drop_last().push(r.last()) =~= r);
                    assert(runs_with_lengths(runs@) =~= r);
                }
                Self { runs }
            },
        }
    }

    pub fn decompact(&self) -> (r: ChunkData<BlockId>)
        requires
            decompactable(self@),
        ensures
            r.wf(),
            r@ == decompacted(self@),
            self@.len() == 1 <==> r is Homogeneous,
    {
        if self.runs.len() == 1 {
            ChunkData::Homogeneous(self.runs[0].1)
        } else {
            let ghost runs = self@;
            let mut res: Vec<BlockId> = Vec::with_capacity(CHUNK_LENGTH_3);
            let mut i: usize = 0;
            while i < self.runs.len()
                invariant
                    runs == self@,
                    expand_runs(runs).len() == CHUNK_LENGTH_3,
                    i <= runs.len(),
                    res@ == expand_runs(runs.take(i as int)),
                decreases runs.len() - i,
            {
                let (run_len, id) = self.runs[i];
                proof {
                    lemma_expand_runs_prefix(runs, i + 1);
                    let t = runs.take(i + 1);
                    assert(t.drop_last() =~= runs.take(i as int));
                    assert(t.last() == (run_len as nat, id));
                }
                let ghost start = res@;
                let mut j: usize = 0;
                while j < run_len
                    invariant
                        j <= run_len,
                        res@ == start + Seq::new(j as nat, |_k: int| id),
                        start.len() + run_len <= CHUNK_LENGTH_3,
                    decreases run_len - j,
                {
                    res.push(id);
                    j += 1;
                    assert(res@ =~= start + Seq::new(j as nat, |_k: int| id));
                }
                proof {
                    let t = runs.take(i + 1);
                    assert(t.drop_last() =~= runs.take(i as int));
                    assert(t.last() == (run_len as nat, id));
                }
                i += 1;
            }
            assert(runs.take(i as int) =~= runs);
            let array = ArrayChunk { data: res };
            ChunkData::Array(array)
        }
    }
}

/// Compacting a section and reading it back gives the same blocks.
pub proof fn lemma_compact_roundtrip(data: ChunkData<BlockId>)
    requires
        data.wf(),
    ensures
        decompactable(compacted_runs(data)),
        decompacted(compacted_runs(data)) == data@,
{
    match data {
        ChunkData::Homogeneous(id) => {
            assert(decompacted(compacted_runs(data)) =~= data@);
        },
        ChunkData::Array(a) => {
            lemma_rle_runs(a@);
            let runs = rle_runs(a@);
            if runs.len() == 1 {
                assert(runs.drop_last() =~= Seq::<(nat, BlockId)>::empty());
                assert(expand_runs(runs.drop_last()) =~= Seq::<BlockId>::empty());
                assert(expand_runs(runs) =~= Seq::new(runs[0].0, |_i: int| runs[0].1));
                assert(decompacted(runs) =~= a@);
            }
        },
    }
}

/// The saved form of a section's data is a run-length list whose runs
/// expand to exactly the section's values, one per block: a section of one
/// value too is saved as that value repeated for every block.
pub proof fn lemma_chunk_data_encoding<T: Encode + ConcreteEq + Copy>(c: ChunkData<T>)
    requires
        c.wf(),
    ensures
        exists|runs: Seq<(nat, T)>| #[trigger] runs_list_encoding(runs) == c.encoding()
            && expand_runs(runs) == c@ && expand_runs(runs).len() == CHUNK_LENGTH_3,
{
    match c {
        ChunkData::Homogeneous(v) => {
            let runs = seq![(CHUNK_LENGTH_3 as nat, v)];
            assert(runs.drop_last() =~= Seq::<(nat, T)>::empty());
            assert(runs.last() == (CHUNK_LENGTH_3 as nat, v));
            assert(expand_runs(runs) == expand_runs(runs.drop_last()) + Seq::new(runs.last().0, |_i: int| runs.last().1));
            assert(expand_runs(runs.drop_last()) == Seq::<T>::empty());
            assert(expand_runs(runs) =~= c@);
            assert(runs_list_encoding(runs) == c.encoding());
        },
        ChunkData::Array(a) => {
            lemma_rle_runs(a@);
            let runs = rle_runs(a@);
            assert(runs_list_encoding(runs) == c.encoding());
        },
    }
}

impl<T: Encode + ConcreteEq + Copy> Encode for ChunkData<T> {
    open spec fn kind_spec() -> NodeKind {
        NodeKind::List
    }

    open spec fn encoding(&self) -> Seq<u8> {
        match self {
            ChunkData::Homogeneous(element) => runs_list_encoding(
                seq![(CHUNK_LENGTH_3 as nat, *element)],
            ),
            ChunkData::Array(a) => rle_list_encoding(a@),
        }
    }

    fn kind() -> (k: NodeKind) {
        NodeKind::List
    }

    fn encode(&self, encoder: &mut Encoder)
        ensures
            self.wf() ==> exists|runs: Seq<(nat, T)>| final(encoder)@ == old(encoder)@ + #[trigger] runs_list_encoding(runs)
                && expand_runs(runs) == self@ && expand_runs(runs).len() == CHUNK_LENGTH_3,
    {
        proof {
            if self.wf() {
                lemma_chunk_data_encoding(*self);
            }
        }
        match self {
            ChunkData::Homogeneous(element) => {
                let runs = [(CHUNK_LENGTH_3, *element)];
                encoder.encode_rle_list_runs(&runs);
                assert(runs_with_lengths(runs@) =~= seq![(CHUNK_LENGTH_3 as nat, *element)]);
            },
            ChunkData::Array(a) => encoder.encode_rle_list(a.data.as_slice()),
        }
    }
}

} // verus!
