//! Which chunks and sections to load and unload: the requests, and the
//! queues they are sorted into.
use super::chunk::ChunkSectionPos;
use super::dedup_queue::DedupQueue;
use super::ChunkPos;
use super::DynamicChunkLoader;
use crate::vecmap::{VecMap, VecSet};
use vstd::prelude::*;

verus! {

/// A request to load or unload a chunk or a section.
#[derive(Copy, Clone, Debug, Eq, PartialEq, Hash)]
pub enum LoadEvent {
    Load(ChunkPos),
    Unload(ChunkPos),
    LoadSection(ChunkSectionPos),
    UnloadSection(ChunkSectionPos),
}

/// The requests not yet sorted, and the queues of what to load and unload.
#[derive(Debug)]
pub struct LoadQueue {
    pub load: DedupQueue<ChunkPos>,
    pub unload: DedupQueue<ChunkPos>,
    pub load_sections: DedupQueue<ChunkSectionPos>,
    pub unload_sections: DedupQueue<ChunkSectionPos>,
    pub events: Vec<LoadEvent>,
}

/// The contents of the four queues: chunks to load, chunks to unload,
/// sections to load, sections to unload.
pub type QueueViews = (Seq<ChunkPos>, Seq<ChunkPos>, Seq<ChunkSectionPos>, Seq<ChunkSectionPos>);

/// `s` with `x` taken out, wherever it is.
pub open spec fn without<T>(s: Seq<T>, x: T) -> Seq<T> {
    if s.contains(x) {
        s.remove(s.index_of(x))
    } else {
        s
    }
}

/// `s` with `x` at the back, unless it is already there.
pub open spec fn with_back<T>(s: Seq<T>, x: T) -> Seq<T> {
    if s.contains(x) {
        s
    } else {
        s.push(x)
    }
}

/// The queues after one request: a load request takes the chunk out of the
/// unload queue and queues it for loading unless it is loaded; an unload
/// request the other way round. Section requests do the same on the section
/// queues.
pub open spec fn load_step(
    q: QueueViews,
    ev: LoadEvent,
    loaded: Set<ChunkPos>,
    loaded_sections: Set<ChunkSectionPos>,
) -> QueueViews {
    match ev {
        LoadEvent::Load(p) => (
            if loaded.contains(p) {
                q.0
            } else {
                with_back(q.0, p)
            },
            without(q.1, p),
            q.2,
            q.3,
        ),
        LoadEvent::Unload(p) => (
            without(q.0, p),
            if loaded.contains(p) {
                with_back(q.1, p)
            } else {
                q.1
            },
            q.2,
            q.3,
        ),
        LoadEvent::LoadSection(p) => (
            q.0,
            q.1,
            if loaded_sections.contains(p) {
                q.2
            } else {
                with_back(q.2, p)
            },
            without(q.3, p),
        ),
        LoadEvent::UnloadSection(p) => (
            q.0,
            q.1,
            without(q.2, p),
            if loaded_sections.contains(p) {
                with_back(q.3, p)
            } else {
                q.3
            },
        ),
    }
}

/// The queues after a list of requests, one after the other.
pub open spec fn load_steps(
    q: QueueViews,
    evs: Seq<LoadEvent>,
    loaded: Set<ChunkPos>,
    loaded_sections: Set<ChunkSectionPos>,
) -> QueueViews
    decreases evs.len(),
{
    if evs.len() == 0 {
        q
    } else {
        load_step(load_steps(q, evs.drop_last(), loaded, loaded_sections), evs.last(), loaded, loaded_sections)
    }
}

/// The request concerns a section whose chunk is loaded, or a chunk.
pub open spec fn request_valid(ev: LoadEvent, loaded: Set<ChunkPos>) -> bool {
    match ev {
        LoadEvent::LoadSection(p) => loaded.contains(ChunkPos { x: p.x, z: p.z }),
        LoadEvent::UnloadSection(p) => loaded.contains(ChunkPos { x: p.x, z: p.z }),
        _ => true,
    }
}

impl LoadQueue {
    pub open spec fn wf(&self) -> bool {
        &&& self.load.wf()
        &&& self.unload.wf()
        &&& self.load_sections.wf()
        &&& self.unload_sections.wf()
    }

    /// The contents of the four queues.
    pub open spec fn queues(&self) -> QueueViews {
        (self.load@, self.unload@, self.load_sections@, self.unload_sections@)
    }

    pub fn new() -> (r: Self)
        ensures
            r.wf(),
            r.queues() == (Seq::<ChunkPos>::empty(), Seq::<ChunkPos>::empty(), Seq::<ChunkSectionPos>::empty(), Seq::<ChunkSectionPos>::empty()),
            r.events@ == Seq::<LoadEvent>::empty(),
    {
        LoadQueue {
            load: DedupQueue::new(),
            unload: DedupQueue::new(),
            load_sections: DedupQueue::new(),
            unload_sections: DedupQueue::new(),
            events: Vec::new(),
        }
    }

    /// Requests that a chunk be loaded.
    pub fn load(&mut self, pos: ChunkPos)
        ensures
            final(self).events@ == old(self).events@.push(LoadEvent::Load(pos)),
            final(self).queues() == old(self).queues(),
    {
        self.events.push(LoadEvent::Load(pos));
    }

    /// Requests that a chunk be unloaded.
    pub fn unload(&mut self, pos: ChunkPos)
        ensures
            final(self).events@ == old(self).events@.push(LoadEvent::Unload(pos)),
            final(self).queues() == old(self).queues(),
    {
        self.events.push(LoadEvent::Unload(pos));
    }

    /// Requests that a section be loaded.
    pub fn load_section(&mut self, pos: ChunkSectionPos)
        ensures
            final(self).events@ == old(self).events@.push(LoadEvent::LoadSection(pos)),
            final(self).queues() == old(self).queues(),
    {
        self.events.push(LoadEvent::LoadSection(pos));
    }

    /// Requests that a section be unloaded.
    pub fn unload_section(&mut self, pos: ChunkSectionPos)
        ensures
            final(self).events@ == old(self).events@.push(LoadEvent::UnloadSection(pos)),
            final(self).queues() == old(self).queues(),
    {
        self.events.push(LoadEvent::UnloadSection(pos));
    }
}

/// Sorts the pending requests, oldest first, into the queues, given the
/// chunks and sections that are loaded; the requests are used up.
pub fn process_load_events(
    loaded: &VecSet<ChunkPos>,
    loaded_sections: &VecSet<ChunkSectionPos>,
    queues: &mut LoadQueue,
)
    requires
        old(queues).wf(),
        forall|i: int| 0 <= i < old(queues).events@.len() ==> request_valid(#[trigger] old(queues).events@[i], loaded@),
    ensures
        final(queues).wf(),
        final(queues).events@ == Seq::<LoadEvent>::empty(),
        final(queues).queues() == load_steps(old(queues).queues(), old(queues).events@, loaded@, loaded_sections@),
        forall|p: ChunkPos| #[trigger] last_request(old(queues).events@, LoadEvent::Load(p), LoadEvent::Unload(p))
            ==> !final(queues).unload@.contains(p) && (!loaded@.contains(p) ==> final(queues).load@.contains(p)),
        forall|p: ChunkPos| #[trigger] last_request(old(queues).events@, LoadEvent::Unload(p), LoadEvent::Load(p))
            ==> !final(queues).load@.contains(p) && (loaded@.contains(p) ==> final(queues).unload@.contains(p)),
        forall|p: ChunkSectionPos| #[trigger] last_request(old(queues).events@, LoadEvent::LoadSection(p), LoadEvent::UnloadSection(p))
            ==> !final(queues).unload_sections@.contains(p) && (!loaded_sections@.contains(p) ==> final(queues).load_sections@.contains(p)),
        forall|p: ChunkSectionPos| #[trigger] last_request(old(queues).events@, LoadEvent::UnloadSection(p), LoadEvent::LoadSection(p))
            ==> !final(queues).load_sections@.contains(p) && (loaded_sections@.contains(p) ==> final(queues).unload_sections@.contains(p)),
{
    let ghost evs = queues.events@;
    let ghost q0 = queues.queues();
    let mut i: usize = 0;
    assert(evs.take(0) =~= Seq::<LoadEvent>::empty());
    while i < queues.events.len()
        invariant
            queues.wf(),
            queues.events@ == evs,
            i <= evs.len(),
            queues.queues() == load_steps(q0, evs.take(i as int), loaded@, loaded_sections@),
        decreases evs.len() - i,
    {
        let ev = queues.events[i];
        let ghost before = queues.queues();
        match ev {
            LoadEvent::Load(pos) => {
                queues.unload.remove(&pos);
                if !loaded.contains(&pos) {
                    queues.load.push_back(pos);
                }
            },
            LoadEvent::Unload(pos) => {
                queues.load.remove(&pos);
                if loaded.contains(&pos) {
                    queues.unload.push_back(pos);
                }
            },
            LoadEvent::LoadSection(pos) => {
                queues.unload_sections.remove(&pos);
                if !loaded_sections.contains(&pos) {
                    queues.load_sections.push_back(pos);
                }
            },
            LoadEvent::UnloadSection(pos) => {
                queues.load_sections.remove(&pos);
                if loaded_sections.contains(&pos) {
                    queues.unload_sections.push_back(pos);
                }
            },
        }
        proof {
            assert(evs.take(i + 1).drop_last() =~= evs.take(i as int));
            assert(queues.queues() == load_step(before, ev, loaded@, loaded_sections@));
        }
        i += 1;
    }
    queues.events.clear();
    proof {
        assert(evs.take(evs.len() as int) =~= evs);
        assert forall|p: ChunkPos| #[trigger] last_request(evs, LoadEvent::Load(p), LoadEvent::Unload(p))
            implies !queues.unload@.contains(p) && (!loaded@.contains(p) ==> queues.load@.contains(p)) by {
            lemma_last_request_wins(q0, evs, loaded@, loaded_sections@, p);
        }
        assert forall|p: ChunkPos| #[trigger] last_request(evs, LoadEvent::Unload(p), LoadEvent::Load(p))
            implies !queues.load@.contains(p) && (loaded@.contains(p) ==> queues.unload@.contains(p)) by {
            lemma_last_request_wins(q0, evs, loaded@, loaded_sections@, p);
        }
        assert forall|p: ChunkSectionPos| #[trigger] last_request(evs, LoadEvent::LoadSection(p), LoadEvent::UnloadSection(p))
            implies !queues.unload_sections@.contains(p) && (!loaded_sections@.contains(p) ==> queues.load_sections@.contains(p)) by {
            lemma_last_section_request_wins(q0, evs, loaded@, loaded_sections@, p);
        }
        assert forall|p: ChunkSectionPos| #[trigger] last_request(evs, LoadEvent::UnloadSection(p), LoadEvent::LoadSection(p))
            implies !queues.load_sections@.contains(p) && (loaded_sections@.contains(p) ==> queues.unload_sections@.contains(p)) by {
            lemma_last_section_request_wins(q0, evs, loaded@, loaded_sections@, p);
        }
    }
}

/// Among `evs`, some request is `a`, and no request after it is `b`.
pub open spec fn last_request(evs: Seq<LoadEvent>, a: LoadEvent, b: LoadEvent) -> bool {
    exists|i: int| 0 <= i < evs.len() && evs[i] == a && forall|j: int| i < j < evs.len() ==> #[trigger] evs[j] != b
}

proof fn lemma_without_no_dup<T>(s: Seq<T>, x: T)
    requires
        s.no_duplicates(),
    ensures
        without(s, x).no_duplicates(),
        !without(s, x).contains(x),
        forall|y: T| y != x && s.contains(y) ==> without(s, x).contains(y),
{
    if s.contains(x) {
        let k = s.index_of(x);
        let w = s.remove(k);
        assert forall|i: int, j: int| 0 <= i < w.len() && 0 <= j < w.len() && i != j implies w[i] != w[j] by {
            let si = if i < k { i } else { i + 1 };
            let sj = if j < k { j } else { j + 1 };
            assert(w[i] == s[si] && w[j] == s[sj]);
        }
        if w.contains(x) {
            let i = choose|i: int| 0 <= i < w.len() && w[i] == x;
            let si = if i < k { i } else { i + 1 };
            assert(s[si] == x && s[k] == x && si != k);
        }
        assert forall|y: T| y != x && s.contains(y) implies w.contains(y) by {
            let i = choose|i: int| 0 <= i < s.len() && s[i] == y;
            assert(i != k);
            if i < k {
                assert(w[i] == y);
            } else {
                assert(w[i - 1] == y);
            }
        }
    }
}

proof fn lemma_with_back_no_dup<T>(s: Seq<T>, x: T)
    requires
        s.no_duplicates(),
    ensures
        with_back(s, x).no_duplicates(),
        with_back(s, x).contains(x),
        forall|y: T| s.contains(y) ==> with_back(s, x).contains(y),
{
    if !s.contains(x) {
        let w = s.push(x);
        assert(w[s.len() as int] == x);
        assert forall|i: int, j: int| 0 <= i < w.len() && 0 <= j < w.len() && i != j implies w[i] != w[j] by {
            if i < s.len() && j < s.len() {
                assert(w[i] == s[i] && w[j] == s[j]);
            } else if i < s.len() {
                assert(w[i] == s[i]);
            } else {
                assert(w[j] == s[j]);
            }
        }
        assert forall|y: T| s.contains(y) implies w.contains(y) by {
            let i = choose|i: int| 0 <= i < s.len() && s[i] == y;
            assert(w[i] == y);
        }
    }
}

/// Sorting requests keeps each queue free of repeats.
pub proof fn lemma_steps_no_dup(q: QueueViews, evs: Seq<LoadEvent>, loaded: Set<ChunkPos>, loaded_sections: Set<ChunkSectionPos>)
    requires
        q.0.no_duplicates(),
        q.1.no_duplicates(),
        q.2.no_duplicates(),
        q.3.no_duplicates(),
    ensures
        load_steps(q, evs, loaded, loaded_sections).0.no_duplicates(),
        load_steps(q, evs, loaded, loaded_sections).1.no_duplicates(),
        load_steps(q, evs, loaded, loaded_sections).2.no_duplicates(),
        load_steps(q, evs, loaded, loaded_sections).3.no_duplicates(),
    decreases evs.len(),
{
    if evs.len() > 0 {
        lemma_steps_no_dup(q, evs.drop_last(), loaded, loaded_sections);
        let prev = load_steps(q, evs.drop_last(), loaded, loaded_sections);
        match evs.last() {
            LoadEvent::Load(p) => {
                lemma_with_back_no_dup(prev.0, p);
                lemma_without_no_dup(prev.1, p);
            },
            LoadEvent::Unload(p) => {
                lemma_without_no_dup(prev.0, p);
                lemma_with_back_no_dup(prev.1, p);
            },
            LoadEvent::LoadSection(p) => {
                lemma_with_back_no_dup(prev.2, p);
                lemma_without_no_dup(prev.3, p);
            },
            LoadEvent::UnloadSection(p) => {
                lemma_without_no_dup(prev.2, p);
                lemma_with_back_no_dup(prev.3, p);
            },
        }
    }
}

/// A chunk's requests are answered by the last of them: after a load
/// request that no unload request follows, the chunk is not queued for
/// unloading, and is queued for loading unless it is loaded; after an unload
/// request that no load request follows, the chunk is not queued for
/// loading, and is queued for unloading if it is loaded.
pub proof fn lemma_last_request_wins(
    q: QueueViews,
    evs: Seq<LoadEvent>,
    loaded: Set<ChunkPos>,
    loaded_sections: Set<ChunkSectionPos>,
    p: ChunkPos,
)
    requires
        q.0.no_duplicates(),
        q.1.no_duplicates(),
        q.2.no_duplicates(),
        q.3.no_duplicates(),
    ensures
        last_request(evs, LoadEvent::Load(p), LoadEvent::Unload(p)) ==> {
            &&& !load_steps(q, evs, loaded, loaded_sections).1.contains(p)
            &&& !loaded.contains(p) ==> load_steps(q, evs, loaded, loaded_sections).0.contains(p)
        },
        last_request(evs, LoadEvent::Unload(p), LoadEvent::Load(p)) ==> {
            &&& !load_steps(q, evs, loaded, loaded_sections).0.contains(p)
            &&& loaded.contains(p) ==> load_steps(q, evs, loaded, loaded_sections).1.contains(p)
        },
    decreases evs.len(),
{
    if evs.len() > 0 {
        let d = evs.drop_last();
        let n = evs.len() - 1;
        lemma_steps_no_dup(q, d, loaded, loaded_sections);
        lemma_last_request_wins(q, d, loaded, loaded_sections, p);
        let prev = load_steps(q, d, loaded, loaded_sections);
        let e = evs.last();
        assert(evs[n] == e);
        match e {
            LoadEvent::Load(x) => {
                lemma_with_back_no_dup(prev.0, x);
                lemma_without_no_dup(prev.1, x);
            },
            LoadEvent::Unload(x) => {
                lemma_without_no_dup(prev.0, x);
                lemma_with_back_no_dup(prev.1, x);
            },
            _ => {},
        }
        if last_request(evs, LoadEvent::Load(p), LoadEvent::Unload(p)) {
            let i = choose|i: int| 0 <= i < evs.len() && evs[i] == LoadEvent::Load(p)
                && forall|j: int| i < j < evs.len() ==> #[trigger] evs[j] != LoadEvent::Unload(p);
            if i < n {
                assert(d[i] == evs[i]);
                assert forall|j: int| i < j < d.len() implies #[trigger] d[j] != LoadEvent::Unload(p) by {
                    assert(d[j] == evs[j]);
                }
                assert(last_request(d, LoadEvent::Load(p), LoadEvent::Unload(p)));
                assert(e != LoadEvent::Unload(p));
                if let LoadEvent::Load(x) = e {
                    if x != p && load_steps(q, evs, loaded, loaded_sections).1.contains(p) {
                        lemma_without_subset(prev.1, x, p);
                    }
                }
                if let LoadEvent::Unload(x) = e {
                    if load_steps(q, evs, loaded, loaded_sections).1.contains(p) {
                        lemma_with_back_subset(prev.1, x, p);
                    }
                }
            }
        }
        if last_request(evs, LoadEvent::Unload(p), LoadEvent::Load(p)) {
            let i = choose|i: int| 0 <= i < evs.len() && evs[i] == LoadEvent::Unload(p)
                && forall|j: int| i < j < evs.len() ==> #[trigger] evs[j] != LoadEvent::Load(p);
            if i < n {
                assert(d[i] == evs[i]);
                assert forall|j: int| i < j < d.len() implies #[trigger] d[j] != LoadEvent::Load(p) by {
                    assert(d[j] == evs[j]);
                }
                assert(last_request(d, LoadEvent::Unload(p), LoadEvent::Load(p)));
                assert(e != LoadEvent::Load(p));
                if let LoadEvent::Unload(x) = e {
                    if x != p && load_steps(q, evs, loaded, loaded_sections).0.contains(p) {
                        lemma_without_subset(prev.0, x, p);
                    }
                }
                if let LoadEvent::Load(x) = e {
                    if load_steps(q, evs, loaded, loaded_sections).0.contains(p) {
                        lemma_with_back_subset(prev.0, x, p);
                    }
                }
            }
        }
    }
}

/// A section's requests are answered by the last of them, as a chunk's are.
pub proof fn lemma_last_section_request_wins(
    q: QueueViews,
    evs: Seq<LoadEvent>,
    loaded: Set<ChunkPos>,
    loaded_sections: Set<ChunkSectionPos>,
    p: ChunkSectionPos,
)
    requires
        q.0.no_duplicates(),
        q.1.no_duplicates(),
        q.2.no_duplicates(),
        q.3.no_duplicates(),
    ensures
        last_request(evs, LoadEvent::LoadSection(p), LoadEvent::UnloadSection(p)) ==> {
            &&& !load_steps(q, evs, loaded, loaded_sections).3.contains(p)
            &&& !loaded_sections.contains(p) ==> load_steps(q, evs, loaded, loaded_sections).2.contains(p)
        },
        last_request(evs, LoadEvent::UnloadSection(p), LoadEvent::LoadSection(p)) ==> {
            &&& !load_steps(q, evs, loaded, loaded_sections).2.contains(p)
            &&& loaded_sections.contains(p) ==> load_steps(q, evs, loaded, loaded_sections).3.contains(p)
        },
    decreases evs.len(),
{
    if evs.len() > 0 {
        let d = evs.drop_last();
        let n = evs.len() - 1;
        lemma_steps_no_dup(q, d, loaded, loaded_sections);
        lemma_last_section_request_wins(q, d, loaded, loaded_sections, p);
        let prev = load_steps(q, d, loaded, loaded_sections);
        let e = evs.last();
        assert(evs[n] == e);
        match e {
            LoadEvent::LoadSection(x) => {
                lemma_with_back_no_dup(prev.2, x);
                lemma_without_no_dup(prev.3, x);
            },
            LoadEvent::UnloadSection(x) => {
                lemma_without_no_dup(prev.2, x);
                lemma_with_back_no_dup(prev.3, x);
            },
            _ => {},
        }
        if last_request(evs, LoadEvent::LoadSection(p), LoadEvent::UnloadSection(p)) {
            let i = choose|i: int| 0 <= i < evs.len() && evs[i] == LoadEvent::LoadSection(p)
                && forall|j: int| i < j < evs.len() ==> #[trigger] evs[j] != LoadEvent::UnloadSection(p);
            if i < n {
                assert(d[i] == evs[i]);
                assert forall|j: int| i < j < d.len() implies #[trigger] d[j] != LoadEvent::UnloadSection(p) by {
                    assert(d[j] == evs[j]);
                }
                assert(last_request(d, LoadEvent::LoadSection(p), LoadEvent::UnloadSection(p)));
                assert(e != LoadEvent::UnloadSection(p));
                if let LoadEvent::LoadSection(x) = e {
                    if x != p && load_steps(q, evs, loaded, loaded_sections).3.contains(p) {
                        lemma_without_subset(prev.3, x, p);
                    }
                }
                if let LoadEvent::UnloadSection(x) = e {
                    if load_steps(q, evs, loaded, loaded_sections).3.contains(p) {
                        lemma_with_back_subset(prev.3, x, p);
                    }
                }
            }
        }
        if last_request(evs, LoadEvent::UnloadSection(p), LoadEvent::LoadSection(p)) {
            let i = choose|i: int| 0 <= i < evs.len() && evs[i] == LoadEvent::UnloadSection(p)
                && forall|j: int| i < j < evs.len() ==> #[trigger] evs[j] != LoadEvent::LoadSection(p);
            if i < n {
                assert(d[i] == evs[i]);
                assert forall|j: int| i < j < d.len() implies #[trigger] d[j] != LoadEvent::LoadSection(p) by {
                    assert(d[j] == evs[j]);
                }
                assert(last_request(d, LoadEvent::UnloadSection(p), LoadEvent::LoadSection(p)));
                assert(e != LoadEvent::LoadSection(p));
                if let LoadEvent::UnloadSection(x) = e {
                    if x != p && load_steps(q, evs, loaded, loaded_sections).2.contains(p) {
                        lemma_without_subset(prev.2, x, p);
                    }
                }
                if let LoadEvent::LoadSection(x) = e {
                    if load_steps(q, evs, loaded, loaded_sections).2.contains(p) {
                        lemma_with_back_subset(prev.2, x, p);
                    }
                }
            }
        }
    }
}

/// The queues keep nothing for loading that is loaded already.
pub open spec fn queues_fresh(q: QueueViews, loaded: Set<ChunkPos>, loaded_sections: Set<ChunkSectionPos>) -> bool {
    &&& forall|p: ChunkPos| q.0.contains(p) ==> !loaded.contains(p)
    &&& forall|p: ChunkSectionPos| q.2.contains(p) ==> !loaded_sections.contains(p)
}

proof fn lemma_without_subset<T>(s: Seq<T>, x: T, y: T)
    requires
        without(s, x).contains(y),
    ensures
        s.contains(y),
{
    if s.contains(x) {
        let i = choose|i: int| 0 <= i < without(s, x).len() && without(s, x)[i] == y;
        let j = s.index_of(x);
        if i < j {
            assert(s[i] == y);
        } else {
            assert(s[i + 1] == y);
        }
    }
}

proof fn lemma_with_back_subset<T>(s: Seq<T>, x: T, y: T)
    requires
        with_back(s, x).contains(y),
    ensures
        s.contains(y) || y == x,
{
    if !s.contains(x) {
        let i = choose|i: int| 0 <= i < s.push(x).len() && s.push(x)[i] == y;
        if i < s.len() {
            assert(s[i] == y);
        }
    }
}

/// Sorting requests into the queues keeps them free of what is loaded.
pub proof fn lemma_load_steps_fresh(q: QueueViews, evs: Seq<LoadEvent>, loaded: Set<ChunkPos>, loaded_sections: Set<ChunkSectionPos>)
    requires
        queues_fresh(q, loaded, loaded_sections),
    ensures
        queues_fresh(load_steps(q, evs, loaded, loaded_sections), loaded, loaded_sections),
    decreases evs.len(),
{
    if evs.len() > 0 {
        let prev = load_steps(q, evs.drop_last(), loaded, loaded_sections);
        lemma_load_steps_fresh(q, evs.drop_last(), loaded, loaded_sections);
        let next = load_step(prev, evs.last(), loaded, loaded_sections);
        assert forall|p: ChunkPos| next.0.contains(p) implies !loaded.contains(p) by {
            match evs.last() {
                LoadEvent::Load(c) => {
                    if !loaded.contains(c) {
                        lemma_with_back_subset(prev.0, c, p);
                    }
                },
                LoadEvent::Unload(c) => {
                    lemma_without_subset(prev.0, c, p);
                },
                _ => {},
            }
        }
        assert forall|p: ChunkSectionPos| next.2.contains(p) implies !loaded_sections.contains(p) by {
            match evs.last() {
                LoadEvent::LoadSection(c) => {
                    if !loaded_sections.contains(c) {
                        lemma_with_back_subset(prev.2, c, p);
                    }
                },
                LoadEvent::UnloadSection(c) => {
                    lemma_without_subset(prev.2, c, p);
                },
                _ => {},
            }
        }
    }
}

/// How many of `n` queued elements a frame takes when it takes at most `k`.
pub open spec fn taken(n: nat, k: nat) -> nat {
    if n < k {
        n
    } else {
        k
    }
}

/// Takes up to `k` of the oldest elements off the queue.
fn pop_up_to<T: Copy + crate::util::ConcreteEq>(queue: &mut DedupQueue<T>, k: usize) -> (r: Vec<T>)
    requires
        old(queue).wf(),
    ensures
        final(queue).wf(),
        r@ == old(queue)@.take(taken(old(queue)@.len(), k as nat) as int),
        final(queue)@ == old(queue)@.skip(taken(old(queue)@.len(), k as nat) as int),
{
    let mut out: Vec<T> = Vec::new();
    let ghost s = queue@;
    let ghost t = taken(s.len(), k as nat) as int;
    while out.len() < k
        invariant
            queue.wf(),
            out@.len() <= t,
            out@ == s.take(out@.len() as int),
            queue@ == s.skip(out@.len() as int),
            t == taken(s.len(), k as nat),
            out@.len() < t ==> out@.len() < k,
        ensures
            out@.len() == t,
            out@ == s.take(out@.len() as int),
            queue@ == s.skip(out@.len() as int),
            queue.wf(),
        decreases k - out@.len(),
    {
        match queue.pop_front() {
            Some(v) => {
                proof {
                    assert(s.skip(out@.len() as int).len() > 0);
                    assert(v == s[out@.len() as int]);
                }
                out.push(v);
                proof {
                    assert(out@ =~= s.take(out@.len() as int));
                    assert(queue@ =~= s.skip(out@.len() as int));
                }
            },
            None => {
                break;
            },
        }
    }
    out
}

/// The chunks and sections that one frame starts loading and unloading.
#[derive(Clone, Debug)]
pub struct LoadBatch {
    pub load: Vec<ChunkPos>,
    pub load_sections: Vec<ChunkSectionPos>,
    pub unload: Vec<ChunkPos>,
    pub unload_sections: Vec<ChunkSectionPos>,
}

/// Sorts the pending requests into the queues, then takes off them what one
/// frame loads and unloads: at most one chunk to load, eight sections to
/// load, one chunk to unload and eight sections to unload, the oldest first.
/// Nothing taken for loading is loaded.
pub fn emit_load_events(
    loaded: &VecSet<ChunkPos>,
    loaded_sections: &VecSet<ChunkSectionPos>,
    queues: &mut LoadQueue,
) -> (r: LoadBatch)
    requires
        old(queues).wf(),
        forall|i: int| 0 <= i < old(queues).events@.len() ==> request_valid(#[trigger] old(queues).events@[i], loaded@),
        queues_fresh(old(queues).queues(), loaded@, loaded_sections@),
    ensures
        final(queues).wf(),
        final(queues).events@ == Seq::<LoadEvent>::empty(),
        ({
            let q = load_steps(old(queues).queues(), old(queues).events@, loaded@, loaded_sections@);
            &&& r.load@ == q.0.take(taken(q.0.len(), 1) as int)
            &&& r.load_sections@ == q.2.take(taken(q.2.len(), 8) as int)
            &&& r.unload@ == q.1.take(taken(q.1.len(), 1) as int)
            &&& r.unload_sections@ == q.3.take(taken(q.3.len(), 8) as int)
            &&& final(queues).queues() == (
                q.0.skip(taken(q.0.len(), 1) as int),
                q.1.skip(taken(q.1.len(), 1) as int),
                q.2.skip(taken(q.2.len(), 8) as int),
                q.3.skip(taken(q.3.len(), 8) as int),
            )
        }),
        forall|i: int| 0 <= i < r.load@.len() ==> !loaded@.contains(#[trigger] r.load@[i]),
        forall|i: int| 0 <= i < r.load_sections@.len() ==> !loaded_sections@.contains(#[trigger] r.load_sections@[i]),
        queues_fresh(final(queues).queues(), loaded@, loaded_sections@),
{
    proof {
        lemma_load_steps_fresh(queues.queues(), queues.events@, loaded@, loaded_sections@);
    }
    process_load_events(loaded, loaded_sections, queues);
    let ghost q = queues.queues();
    let load = pop_up_to(&mut queues.load, 1);
    let load_sections = pop_up_to(&mut queues.load_sections, 8);
    let unload = pop_up_to(&mut queues.unload, 1);
    let unload_sections = pop_up_to(&mut queues.unload_sections, 8);
    proof {
        assert forall|i: int| 0 <= i < load@.len() implies !loaded@.contains(#[trigger] load@[i]) by {
            assert(q.0.contains(load@[i]));
        }
        assert forall|i: int| 0 <= i < load_sections@.len() implies !loaded_sections@.contains(#[trigger] load_sections@[i]) by {
            assert(q.2.contains(load_sections@[i]));
        }
        assert forall|p: ChunkPos| queues.load@.contains(p) implies !loaded@.contains(p) by {
            let i = choose|i: int| 0 <= i < queues.load@.len() && queues.load@[i] == p;
            assert(q.0[i + taken(q.0.len(), 1)] == p);
        }
        assert forall|p: ChunkSectionPos| queues.load_sections@.contains(p) implies !loaded_sections@.contains(p) by {
            let i = choose|i: int| 0 <= i < queues.load_sections@.len() && queues.load_sections@[i] == p;
            assert(q.2[i + taken(q.2.len(), 8)] == p);
        }
    }
    LoadBatch { load, load_sections, unload, unload_sections }
}

/// What one frame of world generation asks of the world and its workers.
#[derive(Copy, Clone, Debug, Eq, PartialEq, Hash)]
pub enum WorldAction {
    /// Start generating a chunk.
    GenerateChunk(ChunkPos),
    /// Start generating a section.
    GenerateSection(ChunkSectionPos),
    /// The chunk keeps the requested section from before: hand it on.
    LoadCachedSection(ChunkSectionPos),
    /// A section was requested for a chunk that is not loaded: report it and
    /// skip it.
    SkipSection(ChunkSectionPos),
    /// A generated chunk joined the world.
    ChunkLoaded(ChunkPos),
    /// A section joined the world.
    SectionLoaded(ChunkSectionPos),
}

/// The chunk of a section.
pub open spec fn column_of_section(p: ChunkSectionPos) -> ChunkPos {
    ChunkPos { x: p.x, z: p.z }
}

/// What a request to load a section asks for, given the loaded chunks; the
/// flag tells that the chunk keeps the section from before.
pub open spec fn section_action(loaded: Set<ChunkPos>, req: (ChunkSectionPos, bool)) -> WorldAction {
    if !loaded.contains(column_of_section(req.0)) {
        WorldAction::SkipSection(req.0)
    } else if req.1 {
        WorldAction::LoadCachedSection(req.0)
    } else {
        WorldAction::GenerateSection(req.0)
    }
}

/// The sections kept from before that the requests hand on, in order.
pub open spec fn cached_sections(loaded: Set<ChunkPos>, reqs: Seq<(ChunkSectionPos, bool)>) -> Seq<ChunkSectionPos>
    decreases reqs.len(),
{
    if reqs.len() == 0 {
        Seq::empty()
    } else {
        let prev = cached_sections(loaded, reqs.drop_last());
        if section_action(loaded, reqs.last()) == WorldAction::LoadCachedSection(reqs.last().0) {
            prev.push(reqs.last().0)
        } else {
            prev
        }
    }
}

/// The arriving sections that join the world: those whose chunk is loaded.
pub open spec fn arrivals(loaded: Set<ChunkPos>, ss: Seq<ChunkSectionPos>) -> Seq<ChunkSectionPos>
    decreases ss.len(),
{
    if ss.len() == 0 {
        Seq::empty()
    } else {
        let prev = arrivals(loaded, ss.drop_last());
        if loaded.contains(column_of_section(ss.last())) {
            prev.push(ss.last())
        } else {
            prev
        }
    }
}

/// The sections that join the world in a frame: the generated ones that
/// arrived, then those kept from before, each when its chunk is loaded.
pub open spec fn joining_sections(
    loaded: Set<ChunkPos>,
    section_loads: Seq<(ChunkSectionPos, bool)>,
    finished_chunks: Seq<ChunkPos>,
    finished_sections: Seq<ChunkSectionPos>,
) -> Seq<ChunkSectionPos> {
    arrivals(loaded + finished_chunks.to_set(), finished_sections + cached_sections(loaded, section_loads))
}

/// One frame of world generation: sorts the pending requests into the
/// queues; for each chunk load, starts generating it; for each section
/// load, skips it when its chunk is not loaded, else hands on the section
/// the chunk keeps or starts generating it; then the generated chunks join
/// the world, and the arrived sections (the generated ones, then those
/// handed on) whose chunk is loaded.
pub fn generate_world(
    loaded: &mut VecSet<ChunkPos>,
    loaded_sections: &mut VecSet<ChunkSectionPos>,
    queues: &mut LoadQueue,
    chunk_loads: &[ChunkPos],
    section_loads: &[(ChunkSectionPos, bool)],
    finished_chunks: &[ChunkPos],
    finished_sections: &[ChunkSectionPos],
) -> (r: Vec<WorldAction>)
    requires
        old(loaded).wf(),
        old(loaded_sections).wf(),
        old(queues).wf(),
        forall|i: int| 0 <= i < old(queues).events@.len() ==> request_valid(#[trigger] old(queues).events@[i], old(loaded)@),
        finished_chunks@.no_duplicates(),
        forall|i: int| 0 <= i < finished_chunks@.len() ==> !old(loaded)@.contains(#[trigger] finished_chunks@[i]),
        joining_sections(old(loaded)@, section_loads@, finished_chunks@, finished_sections@).no_duplicates(),
        forall|i: int| 0 <= i < joining_sections(old(loaded)@, section_loads@, finished_chunks@, finished_sections@).len()
            ==> !old(loaded_sections)@.contains(#[trigger] joining_sections(old(loaded)@, section_loads@, finished_chunks@, finished_sections@)[i]),
    ensures
        final(loaded).wf(),
        final(loaded_sections).wf(),
        final(queues).wf(),
        final(queues).events@ == Seq::<LoadEvent>::empty(),
        final(queues).queues() == load_steps(old(queues).queues(), old(queues).events@, old(loaded)@, old(loaded_sections)@),
        r@ == chunk_loads@.map_values(|p: ChunkPos| WorldAction::GenerateChunk(p))
            + section_loads@.map_values(|q: (ChunkSectionPos, bool)| section_action(old(loaded)@, q))
            + finished_chunks@.map_values(|p: ChunkPos| WorldAction::ChunkLoaded(p))
            + joining_sections(old(loaded)@, section_loads@, finished_chunks@, finished_sections@).map_values(|p: ChunkSectionPos| WorldAction::SectionLoaded(p)),
        final(loaded)@ == old(loaded)@ + finished_chunks@.to_set(),
        final(loaded_sections)@ == old(loaded_sections)@ + joining_sections(old(loaded)@, section_loads@, finished_chunks@, finished_sections@).to_set(),
{
    process_load_events(loaded, loaded_sections, queues);
    let ghost l0 = loaded@;
    let ghost gen = |p: ChunkPos| WorldAction::GenerateChunk(p);
    let ghost decide = |q: (ChunkSectionPos, bool)| section_action(l0, q);
    let ghost done = |p: ChunkPos| WorldAction::ChunkLoaded(p);
    let ghost join = |p: ChunkSectionPos| WorldAction::SectionLoaded(p);
    let mut actions: Vec<WorldAction> = Vec::new();
    let mut i: usize = 0;
    while i < chunk_loads.len()
        invariant
            i <= chunk_loads@.len(),
            gen == (|p: ChunkPos| WorldAction::GenerateChunk(p)),
            actions@ == chunk_loads@.take(i as int).map_values(gen),
        decreases chunk_loads@.len() - i,
    {
        actions.push(WorldAction::GenerateChunk(chunk_loads[i]));
        proof {
            assert(actions@ =~= chunk_loads@.take(i + 1).map_values(gen));
        }
        i += 1;
    }
    proof {
        assert(chunk_loads@.take(i as int) =~= chunk_loads@);
    }
    let ghost a1 = actions@;
    let mut cached: Vec<ChunkSectionPos> = Vec::new();
    let mut i: usize = 0;
    while i < section_loads.len()
        invariant
            i <= section_loads@.len(),
            loaded.wf(),
            loaded@ == l0,
            decide == (|q: (ChunkSectionPos, bool)| section_action(l0, q)),
            actions@ == a1 + section_loads@.take(i as int).map_values(decide),
            cached@ == cached_sections(l0, section_loads@.take(i as int)),
        decreases section_loads@.len() - i,
    {
        let (pos, kept) = section_loads[i];
        let action = if !loaded.contains(&pos.column()) {
            WorldAction::SkipSection(pos)
        } else if kept {
            cached.push(pos);
            WorldAction::LoadCachedSection(pos)
        } else {
            WorldAction::GenerateSection(pos)
        };
        actions.push(action);
        proof {
            assert(section_loads@.take(i + 1).drop_last() =~= section_loads@.take(i as int));
            assert(actions@ =~= a1 + section_loads@.take(i + 1).map_values(decide));
        }
        i += 1;
    }
    proof {
        assert(section_loads@.take(i as int) =~= section_loads@);
    }
    let ghost a2 = actions@;
    let mut i: usize = 0;
    while i < finished_chunks.len()
        invariant
            i <= finished_chunks@.len(),
            loaded.wf(),
            loaded@ == l0 + finished_chunks@.take(i as int).to_set(),
            done == (|p: ChunkPos| WorldAction::ChunkLoaded(p)),
            actions@ == a2 + finished_chunks@.take(i as int).map_values(done),
        decreases finished_chunks@.len() - i,
    {
        let pos = finished_chunks[i];
        loaded.insert(pos);
        actions.push(WorldAction::ChunkLoaded(pos));
        proof {
            assert(finished_chunks@.take(i + 1) =~= finished_chunks@.take(i as int).push(pos));
            finished_chunks@.take(i as int).lemma_push_to_set_commute(pos);
            assert(loaded@ =~= l0 + finished_chunks@.take(i + 1).to_set());
            assert(actions@ =~= a2 + finished_chunks@.take(i + 1).map_values(done));
        }
        i += 1;
    }
    proof {
        assert(finished_chunks@.take(i as int) =~= finished_chunks@);
    }
    let ghost a3 = actions@;
    let ghost l1 = loaded@;
    let ghost s0 = loaded_sections@;
    let ghost arriving = finished_sections@ + cached@;
    let n = finished_sections.len();
    let mut i: usize = 0;
    while i < n
        invariant
            n == finished_sections@.len(),
            arriving == finished_sections@ + cached@,
            i <= n,
            loaded.wf(),
            loaded@ == l1,
            loaded_sections.wf(),
            loaded_sections@ == s0 + arrivals(l1, arriving.take(i as int)).to_set(),
            join == (|p: ChunkSectionPos| WorldAction::SectionLoaded(p)),
            actions@ == a3 + arrivals(l1, arriving.take(i as int)).map_values(join),
        decreases n - i,
    {
        let pos = finished_sections[i];
        proof {
            assert(pos == arriving[i as int]);
            assert(arriving.take(i + 1).drop_last() =~= arriving.take(i as int));
        }
        if loaded.contains(&pos.column()) {
            loaded_sections.insert(pos);
            actions.push(WorldAction::SectionLoaded(pos));
            proof {
                arrivals(l1, arriving.take(i as int)).lemma_push_to_set_commute(pos);
                assert(loaded_sections@ =~= s0 + arrivals(l1, arriving.take(i + 1)).to_set());
                assert(actions@ =~= a3 + arrivals(l1, arriving.take(i + 1)).map_values(join));
            }
        }
        i += 1;
    }
    let mut j: usize = 0;
    while j < cached.len()
        invariant
            n == finished_sections@.len(),
            arriving == finished_sections@ + cached@,
            j <= cached@.len(),
            loaded.wf(),
            loaded@ == l1,
            loaded_sections.wf(),
            loaded_sections@ == s0 + arrivals(l1, arriving.take(n + j)).to_set(),
            join == (|p: ChunkSectionPos| WorldAction::SectionLoaded(p)),
            actions@ == a3 + arrivals(l1, arriving.take(n + j)).map_values(join),
        decreases cached@.len() - j,
    {
        let pos = cached[j];
        let ghost k = n + j;
        proof {
            assert(pos == arriving[k]);
            assert(arriving.take(k + 1).drop_last() =~= arriving.take(k));
        }
        if loaded.contains(&pos.column()) {
            loaded_sections.insert(pos);
            actions.push(WorldAction::SectionLoaded(pos));
            proof {
                arrivals(l1, arriving.take(k)).lemma_push_to_set_commute(pos);
                assert(loaded_sections@ =~= s0 + arrivals(l1, arriving.take(k + 1)).to_set());
                assert(actions@ =~= a3 + arrivals(l1, arriving.take(k + 1)).map_values(join));
            }
        }
        j += 1;
    }
    proof {
        assert(arriving.take(n + j) =~= arriving);
    }
    actions
}

/// `a` comes before `b`: by `x`, then by `z`.
pub open spec fn chunk_before(a: ChunkPos, b: ChunkPos) -> bool {
    a.x < b.x || (a.x == b.x && a.z < b.z)
}

/// The chunks are in strictly increasing order.
pub open spec fn sorted_chunks(s: Seq<ChunkPos>) -> bool {
    forall|i: int, j: int| 0 <= i < j < s.len() ==> chunk_before(#[trigger] s[i], #[trigger] s[j])
}

/// The column `c` lies within `r` columns of `center` along `x` and `z`.
pub open spec fn in_square(center: ChunkSectionPos, r: int, c: ChunkPos) -> bool {
    &&& center.x - r <= c.x <= center.x + r
    &&& center.z - r <= c.z <= center.z + r
}

/// Inserts `c` into a sorted list of chunks, unless it is there.
fn insert_sorted(v: &mut Vec<ChunkPos>, c: ChunkPos)
    requires
        sorted_chunks(old(v)@),
    ensures
        sorted_chunks(final(v)@),
        final(v)@.to_set() == old(v)@.to_set().insert(c),
{
    let mut k: usize = 0;
    while k < v.len() && (v[k].x < c.x || (v[k].x == c.x && v[k].z < c.z))
        invariant
            k <= v@.len(),
            forall|j: int| 0 <= j < k ==> chunk_before(#[trigger] v@[j], c),
        decreases v@.len() - k,
    {
        k += 1;
    }
    if k < v.len() && v[k].x == c.x && v[k].z == c.z {
        assert(v@[k as int] == c);
        assert(v@.to_set() =~= v@.to_set().insert(c));
        return;
    }
    let ghost s0 = v@;
    v.insert(k, c);
    proof {
        assert(v@ =~= s0.insert(k as int, c));
        assert forall|i: int, j: int| 0 <= i < j < v@.len() implies chunk_before(#[trigger] v@[i], #[trigger] v@[j]) by {
            if j < k {
            } else if j == k {
            } else if i < k {
                assert(v@[j] == s0[j - 1]);
                if k < s0.len() {
                    assert(!chunk_before(s0[k as int], c));
                    if j - 1 > k {
                        assert(chunk_before(s0[k as int], s0[j - 1]));
                    }
                }
            } else if i == k {
                assert(v@[j] == s0[j - 1]);
                assert(!chunk_before(s0[k as int], c));
                if j - 1 > k {
                    assert(chunk_before(s0[k as int], s0[j - 1]));
                }
            } else {
                assert(v@[i] == s0[i - 1] && v@[j] == s0[j - 1]);
            }
        }
        assert forall|x: ChunkPos| #[trigger] v@.to_set().contains(x) <==> s0.to_set().insert(c).contains(x) by {
            if v@.contains(x) {
                let i = choose|i: int| 0 <= i < v@.len() && v@[i] == x;
                if i < k {
                    assert(s0[i] == x);
                } else if i > k {
                    assert(s0[i - 1] == x);
                }
            }
            if s0.contains(x) {
                let i = choose|i: int| 0 <= i < s0.len() && s0[i] == x;
                if i < k {
                    assert(v@[i] == x);
                } else {
                    assert(v@[i + 1] == x);
                }
            }
            if x == c {
                assert(v@[k as int] == c);
            }
        }
        assert(v@.to_set() =~= s0.to_set().insert(c));
    }
}

/// The columns of the square processed before row `x`, column `z`.
pub open spec fn square_before(center: ChunkSectionPos, r: int, x: int, z: int, c: ChunkPos) -> bool {
    in_square(center, r, c) && (c.x < x || (c.x == x && c.z < z))
}

/// Adds every column within `r` of `center` to a sorted list.
fn add_square(v: &mut Vec<ChunkPos>, center: ChunkSectionPos, r: i32)
    requires
        sorted_chunks(old(v)@),
        0 <= r,
        i32::MIN <= center.x - r,
        center.x + r < i32::MAX,
        i32::MIN <= center.z - r,
        center.z + r < i32::MAX,
    ensures
        sorted_chunks(final(v)@),
        forall|c: ChunkPos| #[trigger] final(v)@.to_set().contains(c) <==> (old(v)@.to_set().contains(c) || in_square(center, r as int, c)),
{
    let mut x: i32 = center.x - r;
    while x <= center.x + r
        invariant
            sorted_chunks(v@),
            0 <= r,
            center.x - r <= x <= center.x + r + 1,
            center.x + r < i32::MAX,
            i32::MIN <= center.z - r,
            center.z + r < i32::MAX,
            forall|c: ChunkPos| #[trigger] v@.to_set().contains(c) <==> (old(v)@.to_set().contains(c) || square_before(center, r as int, x as int, center.z - r, c)),
        decreases center.x + r + 1 - x,
    {
        let mut z: i32 = center.z - r;
        while z <= center.z + r
            invariant
                sorted_chunks(v@),
                0 <= r,
                center.x - r <= x <= center.x + r,
                center.z - r <= z <= center.z + r + 1,
                center.x + r < i32::MAX,
                i32::MIN <= center.z - r,
                center.z + r < i32::MAX,
                forall|c: ChunkPos| #[trigger] v@.to_set().contains(c) <==> (old(v)@.to_set().contains(c) || square_before(center, r as int, x as int, z as int, c)),
            decreases center.z + r + 1 - z,
        {
            insert_sorted(v, ChunkPos { x, z });
            z += 1;
        }
        proof {
            assert forall|c: ChunkPos| #[trigger] v@.to_set().contains(c) <==> (old(v)@.to_set().contains(c) || square_before(center, r as int, x + 1, center.z - r, c)) by {
                if square_before(center, r as int, x as int, z as int, c) != square_before(center, r as int, x + 1, center.z - r, c) {
                }
            }
        }
        x += 1;
    }
    assert forall|c: ChunkPos| #[trigger] v@.to_set().contains(c) <==> (old(v)@.to_set().contains(c) || in_square(center, r as int, c)) by {
        if square_before(center, r as int, x as int, center.z - r, c) != in_square(center, r as int, c) {
        }
    }
}

/// The heights within `r` of `cy`.
pub open spec fn y_range(cy: int, r: int) -> Set<i32> {
    Set::new(|y: i32| cy - r <= y <= cy + r)
}

/// The sections of every waiting chunk are kept without repeats.
pub open spec fn waiting_wf(w: VecMap<ChunkPos, VecSet<i32>>) -> bool {
    &&& w.wf()
    &&& forall|c: ChunkPos| #[trigger] w@.contains_key(c) ==> w@[c].wf()
}

/// The heights waiting in `w` for chunk `c`; none when it has no entry.
pub open spec fn waiting_ys(w: Map<ChunkPos, VecSet<i32>>, c: ChunkPos) -> Set<i32> {
    if w.contains_key(c) {
        w[c]@
    } else {
        Set::empty()
    }
}

/// Records, for every column within `r` of `center`, that its sections
/// within `r` of `center`'s height wait to be loaded.
fn add_waiting(waiting: &mut VecMap<ChunkPos, VecSet<i32>>, center: ChunkSectionPos, r: i32)
    requires
        waiting_wf(*old(waiting)),
        0 <= r,
        i32::MIN <= center.x - r,
        center.x + r < i32::MAX,
        i32::MIN <= center.y - r,
        center.y + r < i32::MAX,
        i32::MIN <= center.z - r,
        center.z + r < i32::MAX,
    ensures
        waiting_wf(*final(waiting)),
        forall|c: ChunkPos| #[trigger] final(waiting)@.contains_key(c) <==> (old(waiting)@.contains_key(c) || in_square(center, r as int, c)),
        forall|c: ChunkPos| #[trigger] waiting_ys(final(waiting)@, c) == waiting_ys(old(waiting)@, c).union(
            if in_square(center, r as int, c) { y_range(center.y as int, r as int) } else { Set::empty() }),
{
    let ghost w0 = waiting@;
    let mut x: i32 = center.x - r;
    while x <= center.x + r
        invariant
            waiting_wf(*waiting),
            0 <= r,
            center.x - r <= x <= center.x + r + 1,
            center.x + r < i32::MAX,
            i32::MIN <= center.y - r,
            center.y + r < i32::MAX,
            i32::MIN <= center.z - r,
            center.z + r < i32::MAX,
            forall|c: ChunkPos| #[trigger] waiting@.contains_key(c) <==> (w0.contains_key(c) || square_before(center, r as int, x as int, center.z - r, c)),
            forall|c: ChunkPos| #[trigger] waiting_ys(waiting@, c) == waiting_ys(w0, c).union(
                if square_before(center, r as int, x as int, center.z - r, c) { y_range(center.y as int, r as int) } else { Set::empty() }),
        decreases center.x + r + 1 - x,
    {
        let mut z: i32 = center.z - r;
        while z <= center.z + r
            invariant
                waiting_wf(*waiting),
                0 <= r,
                center.x - r <= x <= center.x + r,
                center.z - r <= z <= center.z + r + 1,
                center.x + r < i32::MAX,
                i32::MIN <= center.y - r,
                center.y + r < i32::MAX,
                i32::MIN <= center.z - r,
                center.z + r < i32::MAX,
                forall|c: ChunkPos| #[trigger] waiting@.contains_key(c) <==> (w0.contains_key(c) || square_before(center, r as int, x as int, z as int, c)),
                forall|c: ChunkPos| #[trigger] waiting_ys(waiting@, c) == waiting_ys(w0, c).union(
                    if square_before(center, r as int, x as int, z as int, c) { y_range(center.y as int, r as int) } else { Set::empty() }),
            decreases center.z + r + 1 - z,
        {
            let c = ChunkPos { x, z };
            let ghost before = waiting@;
            let mut ys = match waiting.remove(&c) {
                Some(s) => s,
                None => VecSet::new(),
            };
            let ghost base = ys@;
            assert(base == waiting_ys(before, c));
            let mut y: i32 = center.y - r;
            while y <= center.y + r
                invariant
                    ys.wf(),
                    center.y - r <= y <= center.y + r + 1,
                    center.y + r < i32::MAX,
                    ys@ == base.union(Set::new(|q: i32| center.y - r <= q < y)),
                decreases center.y + r + 1 - y,
            {
                ys.insert(y);
                proof {
                    assert(ys@ =~= base.union(Set::new(|q: i32| center.y - r <= q < y + 1)));
                }
                y += 1;
            }
            proof {
                assert(ys@ =~= base.union(y_range(center.y as int, r as int)));
            }
            waiting.insert(c, ys);
            proof {
                assert forall|d: ChunkPos| #[trigger] waiting_ys(waiting@, d) == waiting_ys(w0, d).union(
                    if square_before(center, r as int, x as int, z + 1, d) { y_range(center.y as int, r as int) } else { Set::empty() }) by {
                    if d == c {
                        assert(waiting_ys(before, c) == waiting_ys(w0, c).union(
                            if square_before(center, r as int, x as int, z as int, c) { y_range(center.y as int, r as int) } else { Set::empty() }));
                        assert(!square_before(center, r as int, x as int, z as int, c));
                        assert(waiting_ys(w0, c).union(Set::empty()) =~= waiting_ys(w0, c));
                    } else {
                        assert(waiting_ys(waiting@, d) == waiting_ys(before, d));
                        assert(square_before(center, r as int, x as int, z + 1, d) == square_before(center, r as int, x as int, z as int, d));
                    }
                }
                assert forall|d: ChunkPos| #[trigger] waiting@.contains_key(d) implies waiting@[d].wf() by {
                    if d != c {
                        assert(before.contains_key(d));
                    }
                }
            }
            z += 1;
        }
        proof {
            assert forall|c: ChunkPos| #[trigger] waiting_ys(waiting@, c) == waiting_ys(w0, c).union(
                if square_before(center, r as int, x + 1, center.z - r, c) { y_range(center.y as int, r as int) } else { Set::empty() }) by {
                assert(square_before(center, r as int, x as int, z as int, c) == square_before(center, r as int, x + 1, center.z - r, c));
            }
            assert forall|c: ChunkPos| #[trigger] waiting@.contains_key(c) <==> (w0.contains_key(c) || square_before(center, r as int, x + 1, center.z - r, c)) by {
                assert(square_before(center, r as int, x as int, z as int, c) == square_before(center, r as int, x + 1, center.z - r, c));
            }
        }
        x += 1;
    }
    assert forall|c: ChunkPos| #[trigger] waiting_ys(waiting@, c) == waiting_ys(w0, c).union(
        if in_square(center, r as int, c) { y_range(center.y as int, r as int) } else { Set::empty() }) by {
        assert(square_before(center, r as int, x as int, center.z - r, c) == in_square(center, r as int, c));
    }
    assert forall|c: ChunkPos| #[trigger] waiting@.contains_key(c) <==> (w0.contains_key(c) || in_square(center, r as int, c)) by {
        assert(square_before(center, r as int, x as int, center.z - r, c) == in_square(center, r as int, c));
    }
}

/// A loader whose ranges stay within the `i32` coordinates.
pub open spec fn loader_ok(l: (DynamicChunkLoader, ChunkSectionPos)) -> bool {
    let lr = l.0.load_radius as int;
    let ur = l.0.unload_radius as int;
    &&& lr <= i32::MAX
    &&& ur <= i32::MAX
    &&& i32::MIN <= l.1.x - lr && l.1.x + lr < i32::MAX
    &&& i32::MIN <= l.1.y - lr && l.1.y + lr < i32::MAX
    &&& i32::MIN <= l.1.z - lr && l.1.z + lr < i32::MAX
    &&& i32::MIN <= l.1.x - ur && l.1.x + ur < i32::MAX
    &&& i32::MIN <= l.1.z - ur && l.1.z + ur < i32::MAX
}

/// Some loader of `loaders` wants chunk `c` loaded.
pub open spec fn loaders_load_area(loaders: Map<u64, (DynamicChunkLoader, ChunkSectionPos)>, c: ChunkPos) -> bool {
    exists|e: u64| #[trigger] loaders.contains_key(e) && in_square(loaders[e].1, loaders[e].0.load_radius as int, c)
}

/// Some loader of `loaders` wants chunk `c` kept loaded.
pub open spec fn loaders_keep_area(loaders: Map<u64, (DynamicChunkLoader, ChunkSectionPos)>, c: ChunkPos) -> bool {
    exists|e: u64| #[trigger] loaders.contains_key(e) && in_square(loaders[e].1, loaders[e].0.unload_radius as int, c)
}

/// The heights of the sections of chunk `c` that some loader of `loaders`
/// wants.
pub open spec fn loaders_wanted_ys(loaders: Map<u64, (DynamicChunkLoader, ChunkSectionPos)>, c: ChunkPos) -> Set<i32> {
    Set::new(
        |y: i32|
            exists|e: u64| #[trigger] loaders.contains_key(e) && in_square(loaders[e].1, loaders[e].0.load_radius as int, c)
                && y_range(loaders[e].1.y as int, loaders[e].0.load_radius as int).contains(y),
    )
}

/// The chunk loaders by entity, with the section each was in; the chunks
/// requested so far; and the sections of requested chunks that wait for
/// their chunk to load.
#[derive(Debug)]
pub struct ChunkLoaderContext {
    pub prev_loaders: VecMap<u64, (DynamicChunkLoader, ChunkSectionPos)>,
    pub loaded_chunk_set: VecSet<ChunkPos>,
    pub waiting_sections: VecMap<ChunkPos, VecSet<i32>>,
}

impl ChunkLoaderContext {
    pub open spec fn wf(&self) -> bool {
        &&& self.prev_loaders.wf()
        &&& self.loaded_chunk_set.wf()
        &&& waiting_wf(self.waiting_sections)
        &&& forall|e: u64| #[trigger] self.prev_loaders@.contains_key(e) ==> loader_ok(self.prev_loaders@[e])
    }

    /// Some loader wants chunk `c` loaded.
    pub open spec fn load_area(&self, c: ChunkPos) -> bool {
        loaders_load_area(self.prev_loaders@, c)
    }

    /// Some loader wants chunk `c` kept loaded.
    pub open spec fn keep_area(&self, c: ChunkPos) -> bool {
        loaders_keep_area(self.prev_loaders@, c)
    }

    /// The heights of the sections of chunk `c` that some loader wants.
    pub open spec fn wanted_ys(&self, c: ChunkPos) -> Set<i32> {
        loaders_wanted_ys(self.prev_loaders@, c)
    }

    pub fn new() -> (r: Self)
        ensures
            r.wf(),
            r.prev_loaders@ == Map::<u64, (DynamicChunkLoader, ChunkSectionPos)>::empty(),
            r.loaded_chunk_set@ == Set::<ChunkPos>::empty(),
            r.waiting_sections@ == Map::<ChunkPos, VecSet<i32>>::empty(),
    {
        ChunkLoaderContext {
            prev_loaders: VecMap::new(),
            loaded_chunk_set: VecSet::new(),
            waiting_sections: VecMap::new(),
        }
    }
}

/// What a recheck does, from the loaders `loaders`, the requested chunks
/// `loaded` and the waiting sections `waiting`: the chunks some loader
/// wants are requested, in order of `x` then `z`, and marked requested,
/// with the sections each loader wants left waiting; then the requested
/// chunks no loader keeps are released, and their waiting sections dropped.
pub open spec fn rechecked_from(
    loaders: Map<u64, (DynamicChunkLoader, ChunkSectionPos)>,
    loaded: Set<ChunkPos>,
    waiting: Map<ChunkPos, VecSet<i32>>,
    c1: ChunkLoaderContext,
    ev0: Seq<LoadEvent>,
    ev1: Seq<LoadEvent>,
) -> bool {
    &&& c1.wf()
    &&& c1.prev_loaders@ == loaders
    &&& forall|c: ChunkPos| #[trigger] c1.loaded_chunk_set@.contains(c) <==> ((loaded.contains(c) && loaders_keep_area(loaders, c)) || (!loaded.contains(c) && loaders_load_area(loaders, c)))
    &&& exists|to_load: Seq<ChunkPos>, to_unload: Seq<ChunkPos>|
        {
            &&& sorted_chunks(to_load)
            &&& forall|c: ChunkPos| #[trigger] to_load.contains(c) <==> (loaders_load_area(loaders, c) && !loaded.contains(c))
            &&& to_unload.no_duplicates()
            &&& forall|c: ChunkPos| #[trigger] to_unload.contains(c) <==> (loaded.contains(c) && !loaders_keep_area(loaders, c))
            &&& ev1 == ev0 + to_load.map_values(|c: ChunkPos| LoadEvent::Load(c)) + to_unload.map_values(|c: ChunkPos| LoadEvent::Unload(c))
        }
    &&& forall|c: ChunkPos| #[trigger] c1.waiting_sections@.contains_key(c) <==> ((waiting.contains_key(c) || loaders_load_area(loaders, c)) && !(loaded.contains(c) && !loaders_keep_area(loaders, c)))
    &&& forall|c: ChunkPos| #[trigger] c1.waiting_sections@.contains_key(c) ==> c1.waiting_sections@[c]@ == waiting_ys(waiting, c).union(loaders_wanted_ys(loaders, c))
}

/// A recheck from `c0` gives `c1`, and the requests `ev1` after `ev0`.
pub open spec fn rechecked(
    c0: ChunkLoaderContext,
    c1: ChunkLoaderContext,
    ev0: Seq<LoadEvent>,
    ev1: Seq<LoadEvent>,
) -> bool {
    rechecked_from(c0.prev_loaders@, c0.loaded_chunk_set@, c0.waiting_sections@, c1, ev0, ev1)
}

fn contains_chunk(v: &Vec<ChunkPos>, c: ChunkPos) -> (r: bool)
    ensures
        r == v@.contains(c),
{
    let mut k: usize = 0;
    while k < v.len()
        invariant
            k <= v@.len(),
            forall|j: int| 0 <= j < k ==> v@[j] != c,
        decreases v@.len() - k,
    {
        if v[k].x == c.x && v[k].z == c.z {
            assert(v@[k as int] == c);
            return true;
        }
        k += 1;
    }
    false
}

/// Some loader of the list wants chunk `c` loaded.
pub open spec fn list_load_area(ls: Seq<(DynamicChunkLoader, ChunkSectionPos)>, c: ChunkPos) -> bool {
    exists|j: int| 0 <= j < ls.len() && in_square(#[trigger] ls[j].1, ls[j].0.load_radius as int, c)
}

/// Some loader of the list wants chunk `c` kept loaded.
pub open spec fn list_keep_area(ls: Seq<(DynamicChunkLoader, ChunkSectionPos)>, c: ChunkPos) -> bool {
    exists|j: int| 0 <= j < ls.len() && in_square(#[trigger] ls[j].1, ls[j].0.unload_radius as int, c)
}

/// The heights of the sections of chunk `c` that the loaders of the list want.
pub open spec fn list_wanted_ys(ls: Seq<(DynamicChunkLoader, ChunkSectionPos)>, c: ChunkPos) -> Set<i32> {
    Set::new(
        |y: i32|
            exists|j: int| 0 <= j < ls.len() && in_square(#[trigger] ls[j].1, ls[j].0.load_radius as int, c) && y_range(
                ls[j].1.y as int,
                ls[j].0.load_radius as int,
            ).contains(y),
    )
}

/// The sorted chunks the loaders want loaded and kept loaded; the sections
/// they want are left waiting.
fn gather(
    loaders: &[(DynamicChunkLoader, ChunkSectionPos)],
    waiting: &mut VecMap<ChunkPos, VecSet<i32>>,
) -> (r: (Vec<ChunkPos>, Vec<ChunkPos>))
    requires
        waiting_wf(*old(waiting)),
        forall|j: int| 0 <= j < loaders@.len() ==> loader_ok(#[trigger] loaders@[j]),
    ensures
        sorted_chunks(r.0@),
        forall|c: ChunkPos| #[trigger] r.0@.contains(c) <==> list_load_area(loaders@, c),
        forall|c: ChunkPos| #[trigger] r.1@.contains(c) <==> list_keep_area(loaders@, c),
        waiting_wf(*final(waiting)),
        forall|c: ChunkPos| #[trigger] final(waiting)@.contains_key(c) <==> (old(waiting)@.contains_key(c) || list_load_area(loaders@, c)),
        forall|c: ChunkPos| #[trigger] waiting_ys(final(waiting)@, c) == waiting_ys(old(waiting)@, c).union(list_wanted_ys(loaders@, c)),
{
    let ghost ls = loaders@;
    let ghost w0 = waiting@;
    let mut should: Vec<ChunkPos> = Vec::new();
    let mut keep: Vec<ChunkPos> = Vec::new();
    let mut i: usize = 0;
    while i < loaders.len()
        invariant
            ls == loaders@,
            forall|j: int| 0 <= j < ls.len() ==> loader_ok(#[trigger] ls[j]),
            i <= ls.len(),
            sorted_chunks(should@),
            sorted_chunks(keep@),
            forall|c: ChunkPos| #[trigger] should@.to_set().contains(c) <==> list_load_area(ls.take(i as int), c),
            forall|c: ChunkPos| #[trigger] keep@.to_set().contains(c) <==> list_keep_area(ls.take(i as int), c),
            waiting_wf(*waiting),
            forall|c: ChunkPos| #[trigger] waiting@.contains_key(c) <==> (w0.contains_key(c) || list_load_area(ls.take(i as int), c)),
            forall|c: ChunkPos| #[trigger] waiting_ys(waiting@, c) == waiting_ys(w0, c).union(list_wanted_ys(ls.take(i as int), c)),
        decreases ls.len() - i,
    {
        let (loader, pos) = loaders[i];
        assert(loader_ok(ls[i as int]));
        let lr = loader.load_radius as i32;
        let ur = loader.unload_radius as i32;
        let ghost w1 = waiting@;
        add_square(&mut should, pos, lr);
        add_square(&mut keep, pos, ur);
        add_waiting(waiting, pos, lr);
        proof {
            let t = ls.take(i as int);
            let t1 = ls.take(i + 1);
            assert forall|j: int| 0 <= j < t.len() implies #[trigger] t1[j] == t[j] by {}
            assert(t1[i as int] == ls[i as int]);
            assert forall|c: ChunkPos| list_load_area(t1, c) <==> (list_load_area(t, c) || in_square(pos, lr as int, c)) by {
                if list_load_area(t1, c) {
                    let j = choose|j: int| 0 <= j < t1.len() && in_square(#[trigger] t1[j].1, t1[j].0.load_radius as int, c);
                    if j < i {
                        assert(in_square(t[j].1, t[j].0.load_radius as int, c));
                    }
                }
                if list_load_area(t, c) {
                    let j = choose|j: int| 0 <= j < t.len() && in_square(#[trigger] t[j].1, t[j].0.load_radius as int, c);
                    assert(in_square(t1[j].1, t1[j].0.load_radius as int, c));
                }
                if in_square(pos, lr as int, c) {
                    assert(in_square(t1[i as int].1, t1[i as int].0.load_radius as int, c));
                }
            }
            assert forall|c: ChunkPos| list_keep_area(t1, c) <==> (list_keep_area(t, c) || in_square(pos, ur as int, c)) by {
                if list_keep_area(t1, c) {
                    let j = choose|j: int| 0 <= j < t1.len() && in_square(#[trigger] t1[j].1, t1[j].0.unload_radius as int, c);
                    if j < i {
                        assert(in_square(t[j].1, t[j].0.unload_radius as int, c));
                    }
                }
                if list_keep_area(t, c) {
                    let j = choose|j: int| 0 <= j < t.len() && in_square(#[trigger] t[j].1, t[j].0.unload_radius as int, c);
                    assert(in_square(t1[j].1, t1[j].0.unload_radius as int, c));
                }
                if in_square(pos, ur as int, c) {
                    assert(in_square(t1[i as int].1, t1[i as int].0.unload_radius as int, c));
                }
            }
            assert forall|c: ChunkPos| #[trigger] waiting_ys(waiting@, c) == waiting_ys(w0, c).union(list_wanted_ys(t1, c)) by {
                let add = if in_square(pos, lr as int, c) { y_range(pos.y as int, lr as int) } else { Set::empty() };
                assert(list_wanted_ys(t1, c) =~= list_wanted_ys(t, c).union(add)) by {
                    assert forall|y: i32| list_wanted_ys(t1, c).contains(y) <==> list_wanted_ys(t, c).union(add).contains(y) by {
                        if list_wanted_ys(t1, c).contains(y) {
                            let j = choose|j: int| 0 <= j < t1.len() && in_square(#[trigger] t1[j].1, t1[j].0.load_radius as int, c) && y_range(t1[j].1.y as int, t1[j].0.load_radius as int).contains(y);
                            if j < i {
                                assert(in_square(t[j].1, t[j].0.load_radius as int, c) && y_range(t[j].1.y as int, t[j].0.load_radius as int).contains(y));
                            }
                        }
                        if list_wanted_ys(t, c).contains(y) {
                            let j = choose|j: int| 0 <= j < t.len() && in_square(#[trigger] t[j].1, t[j].0.load_radius as int, c) && y_range(t[j].1.y as int, t[j].0.load_radius as int).contains(y);
                            assert(in_square(t1[j].1, t1[j].0.load_radius as int, c) && y_range(t1[j].1.y as int, t1[j].0.load_radius as int).contains(y));
                        }
                        if add.contains(y) {
                            assert(in_square(t1[i as int].1, t1[i as int].0.load_radius as int, c) && y_range(t1[i as int].1.y as int, t1[i as int].0.load_radius as int).contains(y));
                        }
                    }
                }
                assert(waiting_ys(waiting@, c) == waiting_ys(w1, c).union(add));
                assert(waiting_ys(w0, c).union(list_wanted_ys(t, c)).union(add) =~= waiting_ys(w0, c).union(list_wanted_ys(t, c).union(add)));
            }
        }
        i += 1;
    }
    proof {
        assert(ls.take(ls.len() as int) =~= ls);
        assert forall|c: ChunkPos| #[trigger] should@.contains(c) <==> should@.to_set().contains(c) by {}
        assert forall|c: ChunkPos| #[trigger] keep@.contains(c) <==> keep@.to_set().contains(c) by {}
    }
    (should, keep)
}

proof fn lemma_push_contains<T>(s: Seq<T>, v: T, x: T)
    ensures
        s.push(v).contains(x) <==> (s.contains(x) || x == v),
{
    if s.push(v).contains(x) {
        let i = choose|i: int| 0 <= i < s.push(v).len() && #[trigger] s.push(v)[i] == x;
        if i < s.len() {
            assert(s[i] == x);
        }
    }
    if s.contains(x) {
        let i = choose|i: int| 0 <= i < s.len() && #[trigger] s[i] == x;
        assert(s.push(v)[i] == x);
    }
    if x == v {
        assert(s.push(v)[s.len() as int] == v);
    }
}

proof fn lemma_push_to_set<T>(s: Seq<T>, v: T)
    ensures
        s.push(v).to_set() == s.to_set().insert(v),
{
    assert forall|x: T| s.push(v).to_set().contains(x) <==> s.to_set().insert(v).contains(x) by {
        lemma_push_contains(s, v, x);
    }
    assert(s.push(v).to_set() =~= s.to_set().insert(v));
}

/// Rechecks which chunks the loaders want: requests the wanted chunks that
/// are not requested yet, in order of `x` then `z`, and leaves the sections
/// the loaders want waiting; then releases the requested chunks that no
/// loader keeps, with their waiting sections.
pub fn recheck_loaded_chunks(ctx: &mut ChunkLoaderContext, load_queue: &mut LoadQueue)
    requires
        old(ctx).wf(),
    ensures
        rechecked(*old(ctx), *final(ctx), old(load_queue).events@, final(load_queue).events@),
        final(load_queue).queues() == old(load_queue).queues(),
{
    let ghost c0 = *ctx;
    let ghost ev0 = load_queue.events@;
    let ghost ls = ctx.prev_loaders.val_seq();
    proof {
        ctx.prev_loaders.lemma_values();
        assert forall|j: int| 0 <= j < ls.len() implies loader_ok(#[trigger] ls[j]) by {
            assert(ctx.prev_loaders@.contains_key(ctx.prev_loaders.key_seq()[j]));
        }
        assert forall|c: ChunkPos| list_load_area(ls, c) <==> c0.load_area(c) by {
            if list_load_area(ls, c) {
                let j = choose|j: int| 0 <= j < ls.len() && in_square(#[trigger] ls[j].1, ls[j].0.load_radius as int, c);
                let e = c0.prev_loaders.key_seq()[j];
                assert(c0.prev_loaders@.contains_key(e));
            }
            if c0.load_area(c) {
                let e = choose|e: u64| #[trigger] c0.prev_loaders@.contains_key(e) && in_square(c0.prev_loaders@[e].1, c0.prev_loaders@[e].0.load_radius as int, c);
                let j = choose|j: int| 0 <= j < c0.prev_loaders.key_seq().len() && c0.prev_loaders.key_seq()[j] == e;
                assert(in_square(ls[j].1, ls[j].0.load_radius as int, c));
            }
        }
        assert forall|c: ChunkPos| list_keep_area(ls, c) <==> c0.keep_area(c) by {
            if list_keep_area(ls, c) {
                let j = choose|j: int| 0 <= j < ls.len() && in_square(#[trigger] ls[j].1, ls[j].0.unload_radius as int, c);
                let e = c0.prev_loaders.key_seq()[j];
                assert(c0.prev_loaders@.contains_key(e));
            }
            if c0.keep_area(c) {
                let e = choose|e: u64| #[trigger] c0.prev_loaders@.contains_key(e) && in_square(c0.prev_loaders@[e].1, c0.prev_loaders@[e].0.unload_radius as int, c);
                let j = choose|j: int| 0 <= j < c0.prev_loaders.key_seq().len() && c0.prev_loaders.key_seq()[j] == e;
                assert(in_square(ls[j].1, ls[j].0.unload_radius as int, c));
            }
        }
        assert forall|c: ChunkPos| #[trigger] list_wanted_ys(ls, c) == c0.wanted_ys(c) by {
            assert forall|y: i32| list_wanted_ys(ls, c).contains(y) <==> c0.wanted_ys(c).contains(y) by {
                if list_wanted_ys(ls, c).contains(y) {
                    let j = choose|j: int| 0 <= j < ls.len() && in_square(#[trigger] ls[j].1, ls[j].0.load_radius as int, c) && y_range(ls[j].1.y as int, ls[j].0.load_radius as int).contains(y);
                    let e = c0.prev_loaders.key_seq()[j];
                    assert(c0.prev_loaders@.contains_key(e));
                }
                if c0.wanted_ys(c).contains(y) {
                    let e = choose|e: u64| #[trigger] c0.prev_loaders@.contains_key(e) && in_square(c0.prev_loaders@[e].1, c0.prev_loaders@[e].0.load_radius as int, c) && y_range(c0.prev_loaders@[e].1.y as int, c0.prev_loaders@[e].0.load_radius as int).contains(y);
                    let j = choose|j: int| 0 <= j < c0.prev_loaders.key_seq().len() && c0.prev_loaders.key_seq()[j] == e;
                    assert(in_square(ls[j].1, ls[j].0.load_radius as int, c) && y_range(ls[j].1.y as int, ls[j].0.load_radius as int).contains(y));
                }
            }
            assert(list_wanted_ys(ls, c) =~= c0.wanted_ys(c));
        }
    }
    let (should, keep) = gather(ctx.prev_loaders.values(), &mut ctx.waiting_sections);
    let ghost w1 = ctx.waiting_sections@;

    // the requested chunks that no loader keeps
    let ghost l0 = ctx.loaded_chunk_set.seq();
    let mut to_unload: Vec<ChunkPos> = Vec::new();
    let mut k: usize = 0;
    {
        let loaded_now = ctx.loaded_chunk_set.as_slice();
        while k < loaded_now.len()
            invariant
                loaded_now@ == l0,
                l0.no_duplicates(),
                k <= l0.len(),
                to_unload@.no_duplicates(),
                forall|c: ChunkPos| #[trigger] to_unload@.contains(c) <==> (l0.take(k as int).contains(c) && !keep@.contains(c)),
            decreases l0.len() - k,
        {
            let c = loaded_now[k];
            let ghost t = to_unload@;
            if !contains_chunk(&keep, c) {
                to_unload.push(c);
                proof {
                    assert forall|d: ChunkPos| #[trigger] to_unload@.contains(d) <==> (t.contains(d) || d == c) by {
                        lemma_push_contains(t, c, d);
                    }
                    assert(l0.take(k + 1) =~= l0.take(k as int).push(c));
                    assert(l0[k as int] == c);
                    assert(!l0.take(k as int).contains(c)) by {
                        if l0.take(k as int).contains(c) {
                            let j = choose|j: int| 0 <= j < k && #[trigger] l0.take(k as int)[j] == c;
                            assert(l0[j] == l0[k as int]);
                        }
                    }
                    assert forall|a: int, b: int| 0 <= a < b < to_unload@.len() implies to_unload@[a] != to_unload@[b] by {
                        if b == t.len() {
                            assert(t.contains(t[a]));
                        }
                    }
                }
            }
            proof {
                assert(l0.take(k + 1) =~= l0.take(k as int).push(c));
                assert forall|d: ChunkPos| #[trigger] l0.take(k + 1).contains(d) <==> (l0.take(k as int).contains(d) || d == c) by {
                    lemma_push_contains(l0.take(k as int), c, d);
                }
            }
            k += 1;
        }
    }
    proof {
        assert(l0.take(l0.len() as int) =~= l0);
    }

    // the wanted chunks that are not requested, in order
    let mut to_load: Vec<ChunkPos> = Vec::new();
    let mut k: usize = 0;
    while k < should.len()
        invariant
            sorted_chunks(should@),
            k <= should@.len(),
            ctx.loaded_chunk_set.wf(),
            ctx.loaded_chunk_set@ == l0.to_set(),
            sorted_chunks(to_load@),
            forall|i: int| 0 <= i < to_load@.len() ==> exists|j: int| 0 <= j < k && #[trigger] to_load@[i] == should@[j],
            forall|c: ChunkPos| #[trigger] to_load@.contains(c) <==> (should@.take(k as int).contains(c) && !l0.to_set().contains(c)),
        decreases should@.len() - k,
    {
        let c = should[k];
        let ghost t = to_load@;
        if !ctx.loaded_chunk_set.contains(&c) {
            to_load.push(c);
            proof {
                assert forall|d: ChunkPos| #[trigger] to_load@.contains(d) <==> (t.contains(d) || d == c) by {
                    lemma_push_contains(t, c, d);
                }
                assert forall|a: int, b: int| 0 <= a < b < to_load@.len() implies chunk_before(#[trigger] to_load@[a], #[trigger] to_load@[b]) by {
                    if b == t.len() {
                        let j = choose|j: int| 0 <= j < k && #[trigger] t[a] == should@[j];
                        assert(chunk_before(should@[j], should@[k as int]));
                    }
                }
                assert forall|i: int| 0 <= i < to_load@.len() implies exists|j: int| 0 <= j < k + 1 && #[trigger] to_load@[i] == should@[j] by {
                    if i < t.len() {
                        let j = choose|j: int| 0 <= j < k && #[trigger] t[i] == should@[j];
                        assert(to_load@[i] == should@[j]);
                    } else {
                        assert(to_load@[i] == should@[k as int]);
                    }
                }
            }
        }
        proof {
            assert(should@.take(k + 1) =~= should@.take(k as int).push(c));
            assert forall|d: ChunkPos| #[trigger] should@.take(k + 1).contains(d) <==> (should@.take(k as int).contains(d) || d == c) by {
                lemma_push_contains(should@.take(k as int), c, d);
            }
        }
        k += 1;
    }
    proof {
        assert(should@.take(should@.len() as int) =~= should@);
    }

    // request the wanted chunks
    let mut k: usize = 0;
    while k < to_load.len()
        invariant
            k <= to_load@.len(),
            ctx.loaded_chunk_set.wf(),
            ctx.loaded_chunk_set@ == l0.to_set().union(to_load@.take(k as int).to_set()),
            load_queue.events@ == ev0 + to_load@.take(k as int).map_values(|c: ChunkPos| LoadEvent::Load(c)),
            load_queue.queues() == old(load_queue).queues(),
            waiting_wf(ctx.waiting_sections),
            ctx.waiting_sections@ == w1,
            ctx.prev_loaders == c0.prev_loaders,
        decreases to_load@.len() - k,
    {
        let c = to_load[k];
        load_queue.load(c);
        ctx.loaded_chunk_set.insert(c);
        proof {
            assert(to_load@.take(k + 1) =~= to_load@.take(k as int).push(c));
            assert(to_load@.take(k + 1).map_values(|c: ChunkPos| LoadEvent::Load(c)) =~= to_load@.take(k as int).map_values(|c: ChunkPos| LoadEvent::Load(c)).push(LoadEvent::Load(c)));
            lemma_push_to_set(to_load@.take(k as int), c);
            assert(ctx.loaded_chunk_set@ =~= l0.to_set().union(to_load@.take(k + 1).to_set()));
        }
        k += 1;
    }
    proof {
        assert(to_load@.take(to_load@.len() as int) =~= to_load@);
    }

    // release the chunks no loader keeps
    let ghost loaded_mid = ctx.loaded_chunk_set@;
    let ghost ev_mid = load_queue.events@;
    let mut k: usize = 0;
    while k < to_unload.len()
        invariant
            k <= to_unload@.len(),
            ctx.loaded_chunk_set.wf(),
            waiting_wf(ctx.waiting_sections),
            ctx.loaded_chunk_set@ == loaded_mid.difference(to_unload@.take(k as int).to_set()),
            ctx.waiting_sections@ == w1.remove_keys(to_unload@.take(k as int).to_set()),
            load_queue.events@ == ev_mid + to_unload@.take(k as int).map_values(|c: ChunkPos| LoadEvent::Unload(c)),
            load_queue.queues() == old(load_queue).queues(),
            ctx.prev_loaders == c0.prev_loaders,
        decreases to_unload@.len() - k,
    {
        let c = to_unload[k];
        load_queue.unload(c);
        ctx.loaded_chunk_set.remove(&c);
        ctx.waiting_sections.remove(&c);
        proof {
            assert(to_unload@.take(k + 1) =~= to_unload@.take(k as int).push(c));
            assert(to_unload@.take(k + 1).map_values(|c: ChunkPos| LoadEvent::Unload(c)) =~= to_unload@.take(k as int).map_values(|c: ChunkPos| LoadEvent::Unload(c)).push(LoadEvent::Unload(c)));
            lemma_push_to_set(to_unload@.take(k as int), c);
            assert(ctx.loaded_chunk_set@ =~= loaded_mid.difference(to_unload@.take(k + 1).to_set()));
            assert(ctx.waiting_sections@ =~= w1.remove_keys(to_unload@.take(k + 1).to_set()));
        }
        k += 1;
    }
    proof {
        assert(to_unload@.take(to_unload@.len() as int) =~= to_unload@);
        assert(load_queue.events@ =~= ev0 + to_load@.map_values(|c: ChunkPos| LoadEvent::Load(c)) + to_unload@.map_values(|c: ChunkPos| LoadEvent::Unload(c)));
        assert forall|c: ChunkPos| #[trigger] to_load@.contains(c) <==> (c0.load_area(c) && !c0.loaded_chunk_set@.contains(c)) by {}
        assert forall|c: ChunkPos| #[trigger] to_unload@.contains(c) <==> (c0.loaded_chunk_set@.contains(c) && !c0.keep_area(c)) by {}
        assert forall|c: ChunkPos| #[trigger] ctx.waiting_sections@.contains_key(c) implies ctx.waiting_sections@[c].wf() by {}
        assert(ctx.wf());
        assert forall|c: ChunkPos| #[trigger] ctx.loaded_chunk_set@.contains(c) <==> ((c0.loaded_chunk_set@.contains(c) && c0.keep_area(c)) || (!c0.loaded_chunk_set@.contains(c) && c0.load_area(c))) by {
            assert(to_unload@.take(to_unload@.len() as int).to_set().contains(c) == to_unload@.contains(c));
            assert(to_load@.take(to_load@.len() as int).to_set().contains(c) == to_load@.contains(c));
        }
        assert(sorted_chunks(to_load@));
        assert(to_unload@.no_duplicates());
        assert forall|c: ChunkPos| #[trigger] ctx.waiting_sections@.contains_key(c) <==> ((c0.waiting_sections@.contains_key(c) || c0.load_area(c)) && !(c0.loaded_chunk_set@.contains(c) && !c0.keep_area(c))) by {
            assert(to_unload@.take(to_unload@.len() as int).to_set().contains(c) == to_unload@.contains(c));
        }
        assert forall|c: ChunkPos| #[trigger] ctx.waiting_sections@.contains_key(c) implies ctx.waiting_sections@[c]@ == waiting_ys(c0.waiting_sections@, c).union(c0.wanted_ys(c)) by {
            assert(waiting_ys(w1, c) == waiting_ys(c0.waiting_sections@, c).union(list_wanted_ys(ls, c)));
            assert(w1.contains_key(c));
            assert(ctx.waiting_sections@[c] == w1[c]);
        }
    }
}

/// A loader appeared, or may have moved: a new loader is added and the
/// chunks rechecked; a known one that moved to another column is moved
/// (keeping its radii) and the chunks rechecked; otherwise nothing changes.
pub fn update_loader(
    ctx: &mut ChunkLoaderContext,
    load_queue: &mut LoadQueue,
    entity: u64,
    loader: &DynamicChunkLoader,
    pos: ChunkSectionPos,
)
    requires
        old(ctx).wf(),
        old(ctx).prev_loaders@.contains_key(entity) ==> loader_ok((old(ctx).prev_loaders@[entity].0, pos)),
        !old(ctx).prev_loaders@.contains_key(entity) ==> loader_ok((*loader, pos)),
    ensures
        final(load_queue).queues() == old(load_queue).queues(),
        ({
            let known = old(ctx).prev_loaders@.contains_key(entity);
            let prev = old(ctx).prev_loaders@[entity];
            &&& known && prev.1.x == pos.x && prev.1.z == pos.z ==> *final(ctx) == *old(ctx) && final(load_queue).events@ == old(load_queue).events@
            &&& known && !(prev.1.x == pos.x && prev.1.z == pos.z) ==> rechecked_from(
                old(ctx).prev_loaders@.insert(entity, (prev.0, pos)),
                old(ctx).loaded_chunk_set@,
                old(ctx).waiting_sections@,
                *final(ctx),
                old(load_queue).events@,
                final(load_queue).events@,
            )
            &&& !known ==> rechecked_from(
                old(ctx).prev_loaders@.insert(entity, (*loader, pos)),
                old(ctx).loaded_chunk_set@,
                old(ctx).waiting_sections@,
                *final(ctx),
                old(load_queue).events@,
                final(load_queue).events@,
            )
        }),
{
    match ctx.prev_loaders.get(&entity) {
        Some(prev) => {
            let (prev_loader, previous_pos) = *prev;
            if previous_pos.column() != pos.column() {
                ctx.prev_loaders.insert(entity, (prev_loader, pos));
                proof {
                    assert forall|e: u64| #[trigger] ctx.prev_loaders@.contains_key(e) implies loader_ok(ctx.prev_loaders@[e]) by {
                        if e != entity {
                            assert(old(ctx).prev_loaders@.contains_key(e));
                        }
                    }
                }
                recheck_loaded_chunks(ctx, load_queue);
            }
        },
        None => {
            ctx.prev_loaders.insert(entity, (*loader, pos));
            proof {
                assert forall|e: u64| #[trigger] ctx.prev_loaders@.contains_key(e) implies loader_ok(ctx.prev_loaders@[e]) by {
                    if e != entity {
                        assert(old(ctx).prev_loaders@.contains_key(e));
                    }
                }
            }
            recheck_loaded_chunks(ctx, load_queue);
        },
    }
}

/// A loader went away: it is dropped and the chunks rechecked.
pub fn remove_loader(ctx: &mut ChunkLoaderContext, load_queue: &mut LoadQueue, entity: u64)
    requires
        old(ctx).wf(),
    ensures
        final(load_queue).queues() == old(load_queue).queues(),
        rechecked_from(
            old(ctx).prev_loaders@.remove(entity),
            old(ctx).loaded_chunk_set@,
            old(ctx).waiting_sections@,
            *final(ctx),
            old(load_queue).events@,
            final(load_queue).events@,
        ),
{
    ctx.prev_loaders.remove(&entity);
    proof {
        assert forall|e: u64| #[trigger] ctx.prev_loaders@.contains_key(e) implies loader_ok(ctx.prev_loaders@[e]) by {
            assert(old(ctx).prev_loaders@.contains_key(e));
        }
    }
    recheck_loaded_chunks(ctx, load_queue);
}

/// A requested chunk finished loading: the sections waiting for it are
/// requested, in the order they are kept, and no longer wait.
pub fn recheck_loaded_chunk_sections(ctx: &mut ChunkLoaderContext, load_queue: &mut LoadQueue, chunk: ChunkPos)
    requires
        old(ctx).wf(),
    ensures
        final(ctx).wf(),
        final(ctx).prev_loaders == old(ctx).prev_loaders,
        final(ctx).loaded_chunk_set == old(ctx).loaded_chunk_set,
        final(ctx).waiting_sections@ == old(ctx).waiting_sections@.remove(chunk),
        final(load_queue).queues() == old(load_queue).queues(),
        final(load_queue).events@ == old(load_queue).events@ + (if old(ctx).waiting_sections@.contains_key(chunk) {
            old(ctx).waiting_sections@[chunk].seq().map_values(|y: i32| LoadEvent::LoadSection(ChunkSectionPos { x: chunk.x, y, z: chunk.z }))
        } else {
            Seq::empty()
        }),
{
    let ghost ev0 = load_queue.events@;
    match ctx.waiting_sections.remove(&chunk) {
        Some(waiting) => {
            let ys = waiting.as_slice();
            let ghost sections = |y: i32| LoadEvent::LoadSection(ChunkSectionPos { x: chunk.x, y, z: chunk.z });
            let mut k: usize = 0;
            while k < ys.len()
                invariant
                    k <= ys@.len(),
                    sections == (|y: i32| LoadEvent::LoadSection(ChunkSectionPos { x: chunk.x, y, z: chunk.z })),
                    load_queue.events@ == ev0 + ys@.take(k as int).map_values(sections),
                    load_queue.queues() == old(load_queue).queues(),
                decreases ys@.len() - k,
            {
                let y = ys[k];
                load_queue.load_section(chunk.section(y));
                proof {
                    assert(ys@.take(k + 1) =~= ys@.take(k as int).push(y));
                    assert(ys@.take(k + 1).map_values(sections) =~= ys@.take(k as int).map_values(sections).push(sections(y)));
                }
                k += 1;
            }
            proof {
                assert(ys@.take(ys@.len() as int) =~= ys@);
            }
        },
        None => {
            assert(ev0 + Seq::<LoadEvent>::empty() =~= ev0);
        },
    }
    proof {
        assert forall|c: ChunkPos| #[trigger] ctx.waiting_sections@.contains_key(c) implies ctx.waiting_sections@[c].wf() by {
            assert(old(ctx).waiting_sections@.contains_key(c));
        }
    }
}

/// A recheck with no change of loaders after another one requests nothing
/// and releases nothing, when no loader loads farther than it keeps.
pub proof fn lemma_recheck_settles(
    c0: ChunkLoaderContext,
    c1: ChunkLoaderContext,
    c2: ChunkLoaderContext,
    ev0: Seq<LoadEvent>,
    ev1: Seq<LoadEvent>,
    ev2: Seq<LoadEvent>,
)
    requires
        forall|e: u64| #[trigger] c0.prev_loaders@.contains_key(e) ==> c0.prev_loaders@[e].0.load_radius <= c0.prev_loaders@[e].0.unload_radius,
        rechecked(c0, c1, ev0, ev1),
        rechecked(c1, c2, ev1, ev2),
    ensures
        ev2 == ev1,
        c2.loaded_chunk_set@ == c1.loaded_chunk_set@,
{
    let loaders = c0.prev_loaders@;
    assert forall|c: ChunkPos| loaders_load_area(loaders, c) implies loaders_keep_area(loaders, c) by {
        let e = choose|e: u64| #[trigger] loaders.contains_key(e) && in_square(loaders[e].1, loaders[e].0.load_radius as int, c);
        assert(in_square(loaders[e].1, loaders[e].0.unload_radius as int, c));
    }
    let (to_load, to_unload) = choose|to_load: Seq<ChunkPos>, to_unload: Seq<ChunkPos>|
        {
            &&& sorted_chunks(to_load)
            &&& forall|c: ChunkPos| #[trigger] to_load.contains(c) <==> (loaders_load_area(c1.prev_loaders@, c) && !c1.loaded_chunk_set@.contains(c))
            &&& to_unload.no_duplicates()
            &&& forall|c: ChunkPos| #[trigger] to_unload.contains(c) <==> (c1.loaded_chunk_set@.contains(c) && !loaders_keep_area(c1.prev_loaders@, c))
            &&& ev2 == ev1 + to_load.map_values(|c: ChunkPos| LoadEvent::Load(c)) + to_unload.map_values(|c: ChunkPos| LoadEvent::Unload(c))
        };
    if to_load.len() > 0 {
        assert(to_load.contains(to_load[0]));
    }
    if to_unload.len() > 0 {
        assert(to_unload.contains(to_unload[0]));
    }
    assert(ev2 =~= ev1);
    assert(c2.loaded_chunk_set@ =~= c1.loaded_chunk_set@);
}

} // verus!
