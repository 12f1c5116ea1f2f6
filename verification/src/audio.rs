//! Sound clips, and the weighted random choice of the clip a sound plays.
use crate::random::sample_inclusive;
use crate::vecmap::StrMap;
use rand::rngs::SmallRng;
use vstd::prelude::*;

verus! {

/// The sum of the weights of a list of weighted items.
pub open spec fn weight_sum<T>(pairs: Seq<(usize, T)>) -> int
    decreases pairs.len(),
{
    if pairs.len() == 0 {
        0
    } else {
        weight_sum(pairs.drop_last()) + pairs.last().0
    }
}

/// The weight sum of two lists one after the other.
pub proof fn lemma_weight_sum_concat<T>(a: Seq<(usize, T)>, b: Seq<(usize, T)>)
    ensures
        weight_sum(a + b) == weight_sum(a) + weight_sum(b),
        weight_sum(a) >= 0,
    decreases b.len(),
{
    if b.len() == 0 {
        assert(a + b =~= a);
        lemma_weight_sum_nonneg(a);
    } else {
        assert((a + b).drop_last() =~= a + b.drop_last());
        lemma_weight_sum_concat(a, b.drop_last());
    }
}

proof fn lemma_weight_sum_nonneg<T>(a: Seq<(usize, T)>)
    ensures
        weight_sum(a) >= 0,
    decreases a.len(),
{
    if a.len() > 0 {
        lemma_weight_sum_nonneg(a.drop_last());
    }
}

proof fn lemma_name_pairs_prefix(pools: Map<Seq<char>, usize>, names: Seq<Seq<char>>, w: usize, j: int, k: int)
    requires
        0 <= j <= k <= names.len(),
    ensures
        weight_sum(name_pairs(pools, names.take(j), w)) <= weight_sum(name_pairs(pools, names.take(k), w)),
    decreases k - j,
{
    if j < k {
        lemma_name_pairs_prefix(pools, names, w, j, k - 1);
        assert(names.take(k).drop_last() =~= names.take(k - 1));
        let p = name_pairs(pools, names.take(k - 1), w);
        if pools.contains_key(names.take(k).last()) {
            assert(p.push((w, pools[names.take(k).last()])).drop_last() =~= p);
        }
    }
}

proof fn lemma_sound_pairs_prefix(pools: Map<Seq<char>, usize>, es: Seq<AudioEntry>, i: int, k: int)
    requires
        0 <= i <= k <= es.len(),
    ensures
        weight_sum(sound_pairs(pools, es.take(i))) <= weight_sum(sound_pairs(pools, es.take(k))),
    decreases k - i,
{
    if i < k {
        lemma_sound_pairs_prefix(pools, es, i, k - 1);
        assert(es.take(k).drop_last() =~= es.take(k - 1));
        lemma_weight_sum_concat(sound_pairs(pools, es.take(k - 1)), name_pairs(pools, entry_names(es[k - 1]), es[k - 1].weight));
        lemma_weight_sum_nonneg(name_pairs(pools, entry_names(es[k - 1]), es[k - 1].weight));
    }
}

/// The weights and file contents of a list of pool entries.
pub open spec fn pool_entries_view(entries: Seq<(usize, Vec<Vec<u8>>)>) -> Seq<(usize, Seq<Seq<u8>>)> {
    entries.map_values(|e: (usize, Vec<Vec<u8>>)| (e.0, e.1@.map_values(|f: Vec<u8>| f@)))
}

proof fn lemma_file_pairs_prefix(w: usize, fs: Seq<Seq<u8>>, base: int, j: int, k: int)
    requires
        0 <= j <= k <= fs.len(),
    ensures
        weight_sum(file_pairs(w, fs.take(j), base)) <= weight_sum(file_pairs(w, fs.take(k), base)),
    decreases k - j,
{
    if j < k {
        lemma_file_pairs_prefix(w, fs, base, j, k - 1);
        assert(file_pairs(w, fs.take(k), base).drop_last() =~= file_pairs(w, fs.take(k - 1), base));
    }
}

proof fn lemma_pool_pairs_prefix(es: Seq<(usize, Seq<Seq<u8>>)>, next: int, i: int, k: int)
    requires
        0 <= i <= k <= es.len(),
    ensures
        weight_sum(pool_pairs(es.take(i), next)) <= weight_sum(pool_pairs(es.take(k), next)),
    decreases k - i,
{
    if i < k {
        lemma_pool_pairs_prefix(es, next, i, k - 1);
        assert(es.take(k).drop_last() =~= es.take(k - 1));
        let init = es.take(k - 1);
        lemma_weight_sum_concat(pool_pairs(init, next), file_pairs(es[k - 1].0, es[k - 1].1, next + pool_files(init).len()));
        lemma_weight_sum_nonneg(file_pairs(es[k - 1].0, es[k - 1].1, next + pool_files(init).len()));
    }
}

/// Items with weights, from which one item is drawn with a probability in
/// proportion to its weight.
///
/// Each item stores where its range of numbers starts; an item's range ends
/// where the next one starts, and the last one's at the total weight.
#[derive(Clone, Debug, Eq, PartialEq, Hash)]
pub struct WeightedList<T> {
    items: Vec<(usize, T)>,
    total_weight: usize,
}

impl<T> WeightedList<T> {
    /// Where the range of each item starts.
    pub closed spec fn starts(&self) -> Seq<int> {
        self.items@.map_values(|p: (usize, T)| p.0 as int)
    }

    /// The items, in the order they were pushed.
    pub closed spec fn values(&self) -> Seq<T> {
        self.items@.map_values(|p: (usize, T)| p.1)
    }

    /// The sum of all weights.
    pub closed spec fn total(&self) -> int {
        self.total_weight as int
    }

    pub open spec fn wf(&self) -> bool {
        &&& self.starts().len() == self.values().len()
        &&& self.starts().len() > 0 ==> self.starts()[0] == 0
        &&& self.starts().len() == 0 ==> self.total() == 0
        &&& forall|i: int, j: int|
            0 <= i <= j < self.starts().len() ==> self.starts()[i] <= self.starts()[j]
        &&& forall|i: int| 0 <= i < self.starts().len() ==> self.starts()[i] <= self.total()
    }

    /// Where the range of item `i` ends.
    pub open spec fn end(&self, i: int) -> int {
        if i + 1 < self.starts().len() {
            self.starts()[i + 1]
        } else {
            self.total()
        }
    }

    /// The weight of item `i`: the length of its range.
    pub open spec fn weight(&self, i: int) -> int {
        self.end(i) - self.starts()[i]
    }

    /// The number `num` falls in the range of item `i`.
    pub open spec fn picks(&self, num: int, i: int) -> bool {
        0 <= i < self.starts().len() && self.starts()[i] <= num < self.end(i)
    }

    /// The item that the number `num` falls on.
    pub open spec fn picked(&self, num: int) -> int {
        choose|i: int| self.picks(num, i)
    }

    /// An item can be drawn: the list is empty, or its total weight is
    /// positive.
    pub open spec fn drawable(&self) -> bool {
        self.values().len() == 0 || self.total() > 0
    }

    /// The list holds exactly these items, with these weights, in this
    /// order.
    pub open spec fn holds(&self, pairs: Seq<(usize, T)>) -> bool {
        &&& self.wf()
        &&& self.values() == pairs.map_values(|p: (usize, T)| p.1)
        &&& forall|i: int| 0 <= i < pairs.len() ==> self.weight(i) == (#[trigger] pairs[i]).0
        &&& self.total() == weight_sum(pairs)
    }

    proof fn lemma_some_pick(&self, num: int, k: int)
        requires
            self.wf(),
            0 <= k < self.starts().len(),
            self.starts()[k] <= num < self.total(),
        ensures
            exists|i: int| self.picks(num, i),
        decreases self.starts().len() - k,
    {
        if k + 1 < self.starts().len() && self.starts()[k + 1] <= num {
            self.lemma_some_pick(num, k + 1);
        } else {
            assert(self.picks(num, k));
        }
    }

    /// Every number below the total weight falls on exactly one item.
    pub proof fn lemma_picks_unique(&self, num: int)
        requires
            self.wf(),
            0 <= num < self.total(),
            self.values().len() > 0,
        ensures
            self.picks(num, self.picked(num)),
            forall|i: int| self.picks(num, i) ==> i == self.picked(num),
    {
        self.lemma_some_pick(num, 0);
        let k = self.picked(num);
        assert forall|i: int| self.picks(num, i) implies i == k by {
            if i < k {
                assert(self.starts()[i + 1] <= self.starts()[k]);
            } else if i > k {
                assert(self.starts()[k + 1] <= self.starts()[i]);
            }
        }
    }

    pub fn new() -> (r: Self)
        ensures
            r.holds(Seq::empty()),
            r.values().len() == 0,
            r.total() == 0,
    {
        let r = WeightedList { items: Vec::new(), total_weight: 0 };
        assert(r.values() =~= Seq::<(usize, T)>::empty().map_values(|p: (usize, T)| p.1));
        r
    }

    /// Adds an item that is drawn with a probability in proportion to
    /// `weight`.
    pub fn push(&mut self, weight: usize, value: T)
        requires
            old(self).wf(),
            old(self).total() + weight <= usize::MAX,
        ensures
            final(self).wf(),
            final(self).values() == old(self).values().push(value),
            final(self).starts() == old(self).starts().push(old(self).total()),
            final(self).total() == old(self).total() + weight,
            forall|i: int| 0 <= i < old(self).values().len() ==> final(self).weight(i) == old(self).weight(i),
            final(self).weight(old(self).values().len() as int) == weight,
            forall|pairs: Seq<(usize, T)>| old(self).holds(pairs) ==> final(self).holds(pairs.push((weight, value))),
    {
        let ghost old_self = *self;
        let start = self.total_weight;
        self.items.push((start, value));
        self.total_weight = start + weight;
        proof {
            assert(self.starts() =~= old_self.starts().push(old_self.total()));
            assert(self.values() =~= old_self.values().push(value));
            assert forall|pairs: Seq<(usize, T)>| old_self.holds(pairs) implies self.holds(pairs.push((weight, value))) by {
                let q = pairs.push((weight, value));
                assert(q.drop_last() =~= pairs);
                assert(self.values() =~= q.map_values(|p: (usize, T)| p.1));
                assert forall|i: int| 0 <= i < q.len() implies self.weight(i) == (#[trigger] q[i]).0 by {
                    if i < pairs.len() {
                        assert(q[i] == pairs[i]);
                    }
                }
            }
        }
    }

    /// The item that the number `num` falls on; `None` for an empty list.
    pub fn select_with(&self, num: usize) -> (r: Option<&T>)
        requires
            self.wf(),
            self.values().len() == 0 || num < self.total(),
        ensures
            self.values().len() == 0 ==> r is None,
            self.values().len() > 0 ==> (r matches Some(v) && *v == self.values()[self.picked(
                num as int,
            )]),
    {
        let n = self.items.len();
        if n == 0 {
            return None;
        }
        proof {
            self.lemma_picks_unique(num as int);
        }
        let mut lo: usize = 0;
        let mut hi: usize = n;
        while hi - lo > 1
            invariant
                n == self.starts().len(),
                self.wf(),
                0 <= lo < hi <= n,
                self.starts()[lo as int] <= num,
                hi == n || num < self.starts()[hi as int],
            decreases hi - lo,
        {
            let mid = lo + (hi - lo) / 2;
            if self.items[mid].0 <= num {
                lo = mid;
            } else {
                hi = mid;
            }
        }
        proof {
            assert(self.picks(num as int, lo as int));
        }
        Some(&self.items[lo].1)
    }

    /// Draws an item with a probability in proportion to its weight; `None`
    /// for an empty list. The number it is drawn by is left to chance.
    pub fn select(&self, rng: &mut SmallRng) -> (r: Option<&T>)
        requires
            self.wf(),
            self.drawable(),
        ensures
            r is None <==> self.values().len() == 0,
            r matches Some(v) ==> exists|num: int|
                0 <= num < self.total() && *v == self.values()[#[trigger] self.picked(num)],
    {
        if self.items.len() == 0 {
            return None;
        }
        let num = sample_inclusive(self.total_weight - 1, rng);
        let r = self.select_with(num);
        proof {
            assert(0 <= num < self.total() && *r.unwrap() == self.values()[self.picked(num as int)]);
        }
        r
    }
}

impl<T> Default for WeightedList<T> {
    fn default() -> (r: Self)
        ensures
            r.holds(Seq::empty()),
            r.values().len() == 0,
            r.total() == 0,
    {
        Self::new()
    }
}

/// A sound clip held by an [`AudioState`].
#[derive(Copy, Clone, Debug, Eq, PartialEq, Hash)]
pub struct AudioId(pub usize);

impl AudioId {
    /// The position of the clip among the clips added.
    pub closed spec fn index(self) -> int {
        self.0 as int
    }
}

/// The sound clips, each the bytes of an encoded audio file, numbered in
/// the order they were added.
#[derive(Debug)]
pub struct AudioState {
    audio: Vec<Vec<u8>>,
}

impl AudioState {
    /// The bytes of each clip, by number.
    pub closed spec fn clips(&self) -> Seq<Seq<u8>> {
        self.audio@.map_values(|c: Vec<u8>| c@)
    }

    pub fn new() -> (r: Self)
        ensures
            r.clips() == Seq::<Seq<u8>>::empty(),
    {
        let r = AudioState { audio: Vec::new() };
        assert(r.clips() =~= Seq::<Seq<u8>>::empty());
        r
    }

    /// Keeps a clip, numbered after the ones before it.
    pub fn add(&mut self, data: Vec<u8>) -> (id: AudioId)
        ensures
            id.index() == old(self).clips().len(),
            final(self).clips() == old(self).clips().push(data@),
    {
        let id = AudioId(self.audio.len());
        let ghost d = data@;
        self.audio.push(data);
        assert(self.clips() =~= old(self).clips().push(d));
        id
    }

    /// The bytes of a clip.
    pub fn get(&self, id: AudioId) -> (r: &[u8])
        requires
            0 <= id.index() < self.clips().len(),
        ensures
            r@ == self.clips()[id.index()],
    {
        self.audio[id.0].as_slice()
    }
}

/// Where the sound of an emitter comes from.
#[derive(Debug)]
pub enum EmitterSource {
    Sample(AudioId),
}

/// The entity whose position sounds are heard from, if any.
#[derive(Copy, Clone, Debug, Eq, PartialEq, Hash)]
pub struct ActiveAudioListener(pub Option<u64>);

/// The audio system's settings.
#[derive(Debug, Default)]
pub struct AudioPlugin {}

/// A sound of the manifest: a name that plays one of its pools.
#[derive(Copy, Clone, Debug, Eq, PartialEq, Hash)]
pub struct SoundId(usize);

impl SoundId {
    /// The position of the sound among the sounds.
    pub closed spec fn index(self) -> int {
        self.0 as int
    }
}

/// A pool entry of the manifest: the files its patterns find, each drawn
/// with the entry's weight.
#[derive(Clone, Debug)]
pub struct AudioPoolEntry {
    pub patterns: Vec<String>,
    pub weight: usize,
}

/// A sound entry of the manifest: pools drawn with the entry's weight.
#[derive(Clone, Debug)]
pub struct AudioEntry {
    pub pools: Vec<String>,
    pub weight: usize,
}

/// The weighted clips of one pool entry, whose file contents are `files`:
/// each clip gets its number in turn from `next`.
pub open spec fn file_pairs(weight: usize, files: Seq<Seq<u8>>, next: int) -> Seq<(usize, AudioId)> {
    Seq::new(files.len(), |k: int| (weight, AudioId((next + k) as usize)))
}

/// The files of a list of pool entries, one after the other.
pub open spec fn pool_files(entries: Seq<(usize, Seq<Seq<u8>>)>) -> Seq<Seq<u8>>
    decreases entries.len(),
{
    if entries.len() == 0 {
        Seq::empty()
    } else {
        pool_files(entries.drop_last()) + entries.last().1
    }
}

/// The weighted clip numbers of a list of pool entries whose clips are
/// numbered from `next` on.
pub open spec fn pool_pairs(entries: Seq<(usize, Seq<Seq<u8>>)>, next: int) -> Seq<(usize, AudioId)>
    decreases entries.len(),
{
    if entries.len() == 0 {
        Seq::empty()
    } else {
        let init = entries.drop_last();
        pool_pairs(init, next) + file_pairs(entries.last().0, entries.last().1, next
            + pool_files(init).len())
    }
}

/// The weighted pool numbers of the pool names of one sound entry that name
/// a known pool, in order.
pub open spec fn name_pairs(pools: Map<Seq<char>, usize>, names: Seq<Seq<char>>, weight: usize) -> Seq<(usize, usize)>
    decreases names.len(),
{
    if names.len() == 0 {
        Seq::empty()
    } else {
        let init = name_pairs(pools, names.drop_last(), weight);
        if pools.contains_key(names.last()) {
            init.push((weight, pools[names.last()]))
        } else {
            init
        }
    }
}

/// The pool names of one sound entry that name no known pool, in order.
pub open spec fn unknown_names(pools: Map<Seq<char>, usize>, names: Seq<Seq<char>>) -> Seq<Seq<char>>
    decreases names.len(),
{
    if names.len() == 0 {
        Seq::empty()
    } else {
        let init = unknown_names(pools, names.drop_last());
        if pools.contains_key(names.last()) {
            init
        } else {
            init.push(names.last())
        }
    }
}

/// The pool names of a sound entry.
pub open spec fn entry_names(e: AudioEntry) -> Seq<Seq<char>> {
    e.pools@.map_values(|s: String| s@)
}

/// The weighted pool numbers of a list of sound entries.
pub open spec fn sound_pairs(pools: Map<Seq<char>, usize>, entries: Seq<AudioEntry>) -> Seq<(usize, usize)>
    decreases entries.len(),
{
    if entries.len() == 0 {
        Seq::empty()
    } else {
        sound_pairs(pools, entries.drop_last()) + name_pairs(pools, entry_names(entries.last()), entries.last().weight)
    }
}

/// The unknown pool names of a list of sound entries.
pub open spec fn sound_unknown(pools: Map<Seq<char>, usize>, entries: Seq<AudioEntry>) -> Seq<Seq<char>>
    decreases entries.len(),
{
    if entries.len() == 0 {
        Seq::empty()
    } else {
        sound_unknown(pools, entries.drop_last()) + unknown_names(pools, entry_names(entries.last()))
    }
}

/// The sounds of the manifest: each sound draws one of its pools, and the
/// pool one of its clips, both in proportion to their weights.
#[derive(Debug)]
pub struct RandomizedAudioPools {
    pool_idx_map: StrMap<usize>,
    pools: Vec<WeightedList<AudioId>>,
    sound_idx_map: StrMap<usize>,
    sounds: Vec<WeightedList<usize>>,
}

impl RandomizedAudioPools {
    /// The number of each pool, by name.
    pub closed spec fn pool_names(&self) -> Map<Seq<char>, usize> {
        self.pool_idx_map@
    }

    /// The clips of each pool, by number.
    pub closed spec fn pools(&self) -> Seq<WeightedList<AudioId>> {
        self.pools@
    }

    /// The number of each sound, by name.
    pub closed spec fn sound_names(&self) -> Map<Seq<char>, usize> {
        self.sound_idx_map@
    }

    /// The pools of each sound, by number.
    pub closed spec fn sounds(&self) -> Seq<WeightedList<usize>> {
        self.sounds@
    }

    pub closed spec fn wf(&self) -> bool {
        &&& self.pool_idx_map.wf()
        &&& self.sound_idx_map.wf()
        &&& forall|i: int| 0 <= i < self.pools@.len() ==> (#[trigger] self.pools@[i]).wf()
        &&& forall|i: int| 0 <= i < self.sounds@.len() ==> (#[trigger] self.sounds@[i]).wf()
        &&& forall|k: Seq<char>| #[trigger] self.pool_idx_map@.contains_key(k) ==> self.pool_idx_map@[k]
            < self.pools@.len()
        &&& forall|k: Seq<char>| #[trigger] self.sound_idx_map@.contains_key(k) ==> self.sound_idx_map@[k]
            < self.sounds@.len()
        &&& forall|i: int, j: int|
            0 <= i < self.sounds@.len() && 0 <= j < self.sounds@[i].values().len() ==> (
            #[trigger] self.sounds@[i].values()[j]) < self.pools@.len()
    }

    /// The sound can be played: its pool list and every pool it can draw
    /// can be drawn from.
    pub open spec fn playable(&self, id: SoundId) -> bool {
        let list = self.sounds()[id.index()];
        &&& 0 <= id.index() < self.sounds().len()
        &&& list.drawable()
        &&& forall|i: int|
            0 <= i < list.values().len() && list.weight(i) > 0 ==> (#[trigger] self.pools()[list.values()[i] as int]).drawable()
    }

    /// The pool that the number `n1` draws for a sound.
    pub open spec fn drawn_pool(&self, id: SoundId, n1: int) -> int {
        let list = self.sounds()[id.index()];
        list.values()[list.picked(n1)] as int
    }

    /// The clip that the numbers `n1` and `n2` draw for a sound.
    pub open spec fn drawn_clip(&self, id: SoundId, n1: int, n2: int) -> AudioId {
        let pool = self.pools()[self.drawn_pool(id, n1)];
        pool.values()[pool.picked(n2)]
    }

    pub fn new() -> (r: Self)
        ensures
            r.wf(),
            r.pool_names() == Map::<Seq<char>, usize>::empty(),
            r.sound_names() == Map::<Seq<char>, usize>::empty(),
            r.pools().len() == 0,
            r.sounds().len() == 0,
    {
        RandomizedAudioPools {
            pool_idx_map: StrMap::new(),
            pools: Vec::new(),
            sound_idx_map: StrMap::new(),
            sounds: Vec::new(),
        }
    }

    /// The sound of a name, if the manifest has one.
    pub fn id(&self, name: &str) -> (r: Option<SoundId>)
        requires
            self.wf(),
        ensures
            r is None <==> !self.sound_names().contains_key(name@),
            r matches Some(s) ==> s.index() == self.sound_names()[name@],
    {
        let key = name.to_owned();
        match self.sound_idx_map.get(&key) {
            Some(i) => Some(SoundId(*i)),
            None => None,
        }
    }

    /// Adds a pool whose clips are the given files: each entry's files are
    /// kept in `state`, in order, and drawn with the entry's weight.
    pub fn add_pool(&mut self, state: &mut AudioState, name: String, entries: Vec<(usize, Vec<Vec<u8>>)>)
        requires
            old(self).wf(),
            weight_sum(pool_pairs(pool_entries_view(entries@), old(state).clips().len() as int)) <= usize::MAX,
        ensures
            final(self).wf(),
            final(state).clips() == old(state).clips() + pool_files(pool_entries_view(entries@)),
            final(self).sound_names() == old(self).sound_names(),
            final(self).sounds() == old(self).sounds(),
            final(self).pool_names() == old(self).pool_names().insert(name@, old(self).pools().len() as usize),
            final(self).pools().len() == old(self).pools().len() + 1,
            final(self).pools().take(old(self).pools().len() as int) == old(self).pools(),
            final(self).pools().last().holds(pool_pairs(pool_entries_view(entries@), old(state).clips().len() as int)),
    {
        let ghost ev = pool_entries_view(entries@);
        let ghost next = state.clips().len() as int;
        let ghost clips0 = state.clips();
        let mut entries = entries;
        let mut items: WeightedList<AudioId> = WeightedList::new();
        let ghost mut i: int = 0;
        proof {
            assert(ev.take(0) =~= Seq::<(usize, Seq<Seq<u8>>)>::empty());
            assert(clips0 + pool_files(ev.take(0)) =~= clips0);
            lemma_pool_pairs_prefix(ev, next, 0, ev.len() as int);
            assert(ev.take(ev.len() as int) =~= ev);
        }
        while entries.len() > 0
            invariant
                0 <= i <= ev.len(),
                entries@.len() == ev.len() - i,
                forall|k: int| 0 <= k < entries@.len() ==> pool_entries_view(entries@)[k] == #[trigger] ev[i + k],
                weight_sum(pool_pairs(ev, next)) <= usize::MAX,
                items.holds(pool_pairs(ev.take(i), next)),
                state.clips() == clips0 + pool_files(ev.take(i)),
                next == clips0.len(),
            decreases entries@.len(),
        {
            let ghost raw0 = entries@;
            let ghost v0 = pool_entries_view(entries@);
            proof {
                assert(v0[0] == ev[i + 0]);
            }
            let (w, files) = entries.remove(0);
            proof {
                assert(entries@ =~= raw0.remove(0));
                assert forall|k: int| 0 <= k < entries@.len() implies pool_entries_view(entries@)[k] == #[trigger] ev[i + 1 + k] by {
                    assert(entries@[k] == raw0[k + 1]);
                    assert(v0[k + 1] == ev[i + (k + 1)]);
                }
            }
            let ghost fs = ev[i].1;
            let ghost base = next + pool_files(ev.take(i)).len();
            let ghost before = pool_pairs(ev.take(i), next);
            let mut files = files;
            let ghost mut j: int = 0;
            proof {
                assert(fs.take(0) =~= Seq::<Seq<u8>>::empty());
                assert(before + file_pairs(w, fs.take(0), base) =~= before);
                assert(state.clips() + fs.take(0) =~= state.clips());
                assert(ev.take(i + 1).drop_last() =~= ev.take(i));
                assert(ev[i].0 == w);
                assert(ev.take(i + 1).last() == ev[i]);
                assert(pool_pairs(ev.take(i + 1), next) == before + file_pairs(w, fs, base));
                lemma_pool_pairs_prefix(ev, next, i + 1, ev.len() as int);
                assert(ev.take(ev.len() as int) =~= ev);
                lemma_weight_sum_concat(before, file_pairs(w, fs, base));
                assert(files@.len() == fs.len());
            }
            let ghost clips_i = state.clips();
            while files.len() > 0
                invariant
                    0 <= j <= fs.len(),
                    files@.len() == fs.len() - j,
                    forall|k: int| 0 <= k < files@.len() ==> (#[trigger] files@[k])@ == fs[j + k],
                    weight_sum(before) + weight_sum(file_pairs(w, fs, base)) <= usize::MAX,
                    items.holds(before + file_pairs(w, fs.take(j), base)),
                    state.clips() == clips_i + fs.take(j),
                    clips_i.len() == base,
                decreases files@.len(),
            {
                let ghost f0 = files@;
                let data = files.remove(0);
                proof {
                    assert(data@ == fs[j]);
                    assert forall|k: int| 0 <= k < files@.len() implies (#[trigger] files@[k])@ == fs[j + 1 + k] by {
                        assert(files@[k] == f0[k + 1]);
                    }
                }
                let id = state.add(data);
                proof {
                    let p = file_pairs(w, fs.take(j), base);
                    assert(file_pairs(w, fs.take(j + 1), base) =~= p.push((w, id)));
                    lemma_file_pairs_prefix(w, fs, base, j + 1, fs.len() as int);
                    assert(fs.take(fs.len() as int) =~= fs);
                    assert(p.push((w, id)).drop_last() =~= p);
                    lemma_weight_sum_concat(before, p);
                    assert((before + p).push((w, id)) =~= before + p.push((w, id)));
                    assert(state.clips() =~= clips_i + fs.take(j + 1));
                }
                items.push(w, id);
                proof {
                    j = j + 1;
                }
            }
            proof {
                assert(fs.take(j) =~= fs);
                assert(ev.take(i + 1).last() == ev[i]);
                assert(state.clips() =~= clips0 + pool_files(ev.take(i + 1)));
                i = i + 1;
            }
        }
        proof {
            assert(ev.take(i) =~= ev);
        }
        let n = self.pools.len();
        self.pool_idx_map.insert(name, n);
        let ghost old_pools = self.pools@;
        self.pools.push(items);
        proof {
            assert(self.pools@.take(old_pools.len() as int) =~= old_pools);
        }
    }

    /// Adds a sound that draws among the known pools its entries name,
    /// each with its entry's weight; gives the names that are not pools,
    /// which are left out.
    pub fn add_sound(&mut self, name: String, entries: &[AudioEntry]) -> (unknown: Vec<String>)
        requires
            old(self).wf(),
            weight_sum(sound_pairs(old(self).pool_names(), entries@)) <= usize::MAX,
        ensures
            final(self).wf(),
            final(self).pool_names() == old(self).pool_names(),
            final(self).pools() == old(self).pools(),
            final(self).sound_names() == old(self).sound_names().insert(name@, old(self).sounds().len() as usize),
            final(self).sounds().len() == old(self).sounds().len() + 1,
            final(self).sounds().take(old(self).sounds().len() as int) == old(self).sounds(),
            final(self).sounds().last().holds(sound_pairs(old(self).pool_names(), entries@)),
            unknown@.map_values(|u: String| u@) == sound_unknown(old(self).pool_names(), entries@),
    {
        let ghost m = self.pool_idx_map@;
        let ghost es = entries@;
        let mut items: WeightedList<usize> = WeightedList::new();
        let mut unknown: Vec<String> = Vec::new();
        let mut i: usize = 0;
        assert(es.take(0) =~= Seq::<AudioEntry>::empty());
        while i < entries.len()
            invariant
                self.wf(),
                self.pool_idx_map@ == m,
                es == entries@,
                i <= es.len(),
                weight_sum(sound_pairs(m, es)) <= usize::MAX,
                items.holds(sound_pairs(m, es.take(i as int))),
                forall|j: int| 0 <= j < items.values().len() ==> (#[trigger] items.values()[j]) < self.pools@.len(),
                unknown@.map_values(|u: String| u@) == sound_unknown(m, es.take(i as int)),
            decreases es.len() - i,
        {
            let entry = &entries[i];
            let ghost names = entry_names(*entry);
            let ghost before = sound_pairs(m, es.take(i as int));
            let ghost unknown_before = sound_unknown(m, es.take(i as int));
            let mut j: usize = 0;
            assert(names.take(0) =~= Seq::<Seq<char>>::empty());
            assert(before + name_pairs(m, names.take(0), entry.weight) =~= before);
            assert(unknown_before + unknown_names(m, names.take(0)) =~= unknown_before);
            proof {
                assert(es.take(i + 1).drop_last() =~= es.take(i as int));
                lemma_sound_pairs_prefix(m, es, i + 1, es.len() as int);
                assert(es.take(es.len() as int) =~= es);
                lemma_weight_sum_concat(before, name_pairs(m, names, entry.weight));
            }
            while j < entry.pools.len()
                invariant
                    self.wf(),
                    self.pool_idx_map@ == m,
                    es == entries@,
                    i < es.len(),
                    *entry == es[i as int],
                    names == entry_names(*entry),
                    j <= names.len(),
                    before == sound_pairs(m, es.take(i as int)),
                    unknown_before == sound_unknown(m, es.take(i as int)),
                    weight_sum(before) + weight_sum(name_pairs(m, names, entry.weight)) <= usize::MAX,
                    items.holds(before + name_pairs(m, names.take(j as int), entry.weight)),
                    forall|k: int| 0 <= k < items.values().len() ==> (#[trigger] items.values()[k]) < self.pools@.len(),
                    unknown@.map_values(|u: String| u@) == unknown_before + unknown_names(m, names.take(j as int)),
                decreases names.len() - j,
            {
                let pool_name = &entry.pools[j];
                proof {
                    assert(names.take(j + 1).drop_last() =~= names.take(j as int));
                    assert(names.take(j + 1).last() == pool_name@);
                }
                match self.pool_idx_map.get(pool_name) {
                    Some(idx) => {
                        let idx = *idx;
                        proof {
                            let p = name_pairs(m, names.take(j as int), entry.weight);
                            lemma_name_pairs_prefix(m, names, entry.weight, j + 1, names.len() as int);
                            assert(names.take(names.len() as int) =~= names);
                            assert(p.push((entry.weight, idx)).drop_last() =~= p);
                            lemma_weight_sum_concat(before, p);
                            assert((before + p).push((entry.weight, idx)) =~= before + p.push((entry.weight, idx)));
                        }
                        items.push(entry.weight, idx);
                    },
                    None => {
                        let ghost u0 = unknown@;
                        unknown.push(pool_name.clone());
                        proof {
                            assert(unknown@.map_values(|u: String| u@) =~= u0.map_values(|u: String| u@).push(pool_name@));
                        }
                    },
                }
                j += 1;
            }
            proof {
                assert(names.take(names.len() as int) =~= names);
                assert(es.take(i + 1).drop_last() =~= es.take(i as int));
                assert(es.take(i + 1).last() == es[i as int]);
            }
            i += 1;
        }
        proof {
            assert(es.take(es.len() as int) =~= es);
        }
        let n = self.sounds.len();
        self.sound_idx_map.insert(name, n);
        let ghost old_sounds = self.sounds@;
        self.sounds.push(items);
        proof {
            assert(self.sounds@.take(old_sounds.len() as int) =~= old_sounds);
        }
        unknown
    }

    /// The clip that the numbers `n1` and `n2` draw for a sound: `n1` draws
    /// the pool and `n2` the clip of that pool. `None` when the sound or the
    /// drawn pool has nothing to draw.
    pub fn select_with(&self, id: SoundId, n1: usize, n2: usize) -> (r: Option<AudioId>)
        requires
            self.wf(),
            self.playable(id),
            self.sounds()[id.index()].values().len() > 0 ==> n1 < self.sounds()[id.index()].total(),
            self.sounds()[id.index()].values().len() > 0 && self.pools()[self.drawn_pool(id, n1 as int)].values().len() > 0
                ==> n2 < self.pools()[self.drawn_pool(id, n1 as int)].total(),
        ensures
            r is None <==> (self.sounds()[id.index()].values().len() == 0 || self.pools()[self.drawn_pool(id, n1 as int)].values().len() == 0),
            r matches Some(a) ==> a == self.drawn_clip(id, n1 as int, n2 as int),
    {
        let list = &self.sounds[id.0];
        match list.select_with(n1) {
            None => None,
            Some(pool) => {
                let pool = *pool;
                proof {
                    list.lemma_picks_unique(n1 as int);
                }
                let pool_list = &self.pools[pool];
                match pool_list.select_with(n2) {
                    None => None,
                    Some(a) => Some(*a),
                }
            },
        }
    }

    /// Draws a clip of a pool, in proportion to the clips' weights.
    fn select_from_pool(&self, rng: &mut SmallRng, pool_index: usize) -> (r: Option<AudioId>)
        requires
            self.wf(),
            pool_index < self.pools().len(),
            self.pools()[pool_index as int].drawable(),
        ensures
            r is None <==> self.pools()[pool_index as int].values().len() == 0,
            r matches Some(a) ==> exists|num: int|
                0 <= num < self.pools()[pool_index as int].total() && a == self.pools()[pool_index as int].values()[#[trigger] self.pools()[pool_index as int].picked(num)],
    {
        let list = &self.pools[pool_index];
        match list.select(rng) {
            None => None,
            Some(a) => Some(*a),
        }
    }

    /// Draws a pool of a sound, in proportion to the pools' weights.
    fn select_pool(&self, rng: &mut SmallRng, sound_index: usize) -> (r: Option<usize>)
        requires
            self.wf(),
            sound_index < self.sounds().len(),
            self.sounds()[sound_index as int].drawable(),
        ensures
            r is None <==> self.sounds()[sound_index as int].values().len() == 0,
            r matches Some(p) ==> exists|num: int|
                0 <= num < self.sounds()[sound_index as int].total() && p == self.sounds()[sound_index as int].values()[#[trigger] self.sounds()[sound_index as int].picked(num)],
    {
        let list = &self.sounds[sound_index];
        match list.select(rng) {
            None => None,
            Some(p) => Some(*p),
        }
    }

    /// Draws a clip for a sound: first one of its pools, then one of that
    /// pool's clips, each in proportion to its weight; the numbers drawn are
    /// left to chance. `None` when the sound or the drawn pool is empty.
    pub fn select(&self, rng: &mut SmallRng, id: SoundId) -> (r: Option<AudioId>)
        requires
            self.wf(),
            self.playable(id),
        ensures
            self.sounds()[id.index()].values().len() == 0 ==> r is None,
            (self.sounds()[id.index()].values().len() > 0 && forall|i: int|
                0 <= i < self.pools().len() ==> #[trigger] self.pools()[i].values().len() > 0) ==> r is Some,
            r matches Some(a) ==> exists|n1: int, n2: int|
                0 <= n1 < self.sounds()[id.index()].total() && 0 <= n2 < self.pools()[self.drawn_pool(id, n1)].total()
                    && a == #[trigger] self.drawn_clip(id, n1, n2),
    {
        let ghost list = self.sounds()[id.index()];
        let pool = match self.select_pool(rng, id.0) {
            None => return None,
            Some(p) => p,
        };
        proof {
            let n = choose|num: int| 0 <= num < list.total() && pool == list.values()[#[trigger] list.picked(num)];
            list.lemma_picks_unique(n);
            assert(list.weight(list.picked(n)) > 0);
            assert(self.pools()[pool as int].drawable());
        }
        let ghost pool_list = self.pools()[pool as int];
        match self.select_from_pool(rng, pool) {
            None => None,
            Some(a) => {
                proof {
                    let n = choose|num: int| 0 <= num < list.total() && pool == list.values()[#[trigger] list.picked(num)];
                    let m = choose|num: int| 0 <= num < pool_list.total() && a == pool_list.values()[#[trigger] pool_list.picked(num)];
                    assert(self.drawn_pool(id, n) == pool);
                    assert(a == self.drawn_clip(id, n, m));
                }
                Some(a)
            },
        }
    }
}

/// A clip kept by `add` is given back whole by `get` of the id `add` gave.
pub proof fn lemma_get_after_add(before: AudioState, after: AudioState, data: Seq<u8>, id: AudioId)
    requires
        after.clips() == before.clips().push(data),
        id.index() == before.clips().len(),
    ensures
        0 <= id.index() < after.clips().len(),
        after.clips()[id.index()] == data,
        forall|i: int| 0 <= i < before.clips().len() ==> after.clips()[i] == before.clips()[i],
{
}

} // verus!
