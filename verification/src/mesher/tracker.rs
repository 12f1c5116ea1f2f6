//! Tracking of which chunk sections can be meshed.
//!
//! A section can only be meshed properly when all 26 neighboring sections are
//! loaded. [`MeshTracker`] receives updates about which sections are loaded,
//! and produces positions of sections that have enough data to be meshed.
use crate::vecmap::{VecMap, VecSet};
use crate::world::chunk::ChunkSectionPos;
use vstd::prelude::*;

verus! {

/// `b` is one of the 26 sections around `a`.
pub open spec fn is_neighbor(a: ChunkSectionPos, b: ChunkSectionPos) -> bool {
    &&& a != b
    &&& -1 <= b.x - a.x <= 1
    &&& -1 <= b.y - a.y <= 1
    &&& -1 <= b.z - a.z <= 1
}

/// The neighbors of a section all have coordinates that fit in an `i32`.
pub open spec fn interior(p: ChunkSectionPos) -> bool {
    &&& i32::MIN < p.x < i32::MAX
    &&& i32::MIN < p.y < i32::MAX
    &&& i32::MIN < p.z < i32::MAX
}

/// The neighbors of `center` that are in `loaded`.
pub open spec fn loaded_neighbors(loaded: Set<ChunkSectionPos>, center: ChunkSectionPos) -> Set<
    ChunkSectionPos,
> {
    Set::new(|n: ChunkSectionPos| is_neighbor(center, n) && loaded.contains(n))
}

/// The neighbors of `center` that are not in `loaded`.
pub open spec fn missing_neighbors(loaded: Set<ChunkSectionPos>, center: ChunkSectionPos) -> Set<
    ChunkSectionPos,
> {
    Set::new(|n: ChunkSectionPos| is_neighbor(center, n) && !loaded.contains(n))
}

/// All 26 neighbors of `center` are loaded.
pub open spec fn surrounded(loaded: Set<ChunkSectionPos>, center: ChunkSectionPos) -> bool {
    forall|n: ChunkSectionPos| is_neighbor(center, n) ==> #[trigger] loaded.contains(n)
}

/// For each loaded section with missing neighbors, the neighbors it waits
/// for.
pub open spec fn ideal_constrained_by(loaded: Set<ChunkSectionPos>) -> Map<
    ChunkSectionPos,
    Set<ChunkSectionPos>,
> {
    Map::new(
        |x: ChunkSectionPos| loaded.contains(x) && !surrounded(loaded, x),
        |x: ChunkSectionPos| missing_neighbors(loaded, x),
    )
}

/// For each missing section next to loaded ones, the loaded sections that
/// wait for it.
pub open spec fn ideal_constraining(loaded: Set<ChunkSectionPos>) -> Map<
    ChunkSectionPos,
    Set<ChunkSectionPos>,
> {
    Map::new(
        |y: ChunkSectionPos| !loaded.contains(y) && loaded_neighbors(loaded, y) != Set::<
            ChunkSectionPos,
        >::empty(),
        |y: ChunkSectionPos| loaded_neighbors(loaded, y),
    )
}

/// The sets of a map of sets, as sets.
pub open spec fn sets_of(m: Map<ChunkSectionPos, VecSet<ChunkSectionPos>>) -> Map<
    ChunkSectionPos,
    Set<ChunkSectionPos>,
> {
    Map::new(|k: ChunkSectionPos| m.contains_key(k), |k: ChunkSectionPos| m[k]@)
}

pub open spec fn links_wf(m: VecMap<ChunkSectionPos, VecSet<ChunkSectionPos>>) -> bool {
    &&& m.wf()
    &&& forall|k: ChunkSectionPos| #[trigger] m@.contains_key(k) ==> m@[k].wf()
}

pub open spec fn get_or_empty(m: Map<ChunkSectionPos, Set<ChunkSectionPos>>, k: ChunkSectionPos) -> Set<
    ChunkSectionPos,
> {
    if m.contains_key(k) {
        m[k]
    } else {
        Set::empty()
    }
}

/// `v` added to the sets of all of `keys`.
pub open spec fn with_member_added(
    m: Map<ChunkSectionPos, Set<ChunkSectionPos>>,
    keys: Set<ChunkSectionPos>,
    v: ChunkSectionPos,
) -> Map<ChunkSectionPos, Set<ChunkSectionPos>> {
    Map::new(
        |k: ChunkSectionPos| m.contains_key(k) || keys.contains(k),
        |k: ChunkSectionPos|
            if keys.contains(k) {
                get_or_empty(m, k).insert(v)
            } else {
                m[k]
            },
    )
}

/// `vs` added to the set of `k`.
pub open spec fn with_members(
    m: Map<ChunkSectionPos, Set<ChunkSectionPos>>,
    k: ChunkSectionPos,
    vs: Set<ChunkSectionPos>,
) -> Map<ChunkSectionPos, Set<ChunkSectionPos>> {
    if vs == Set::<ChunkSectionPos>::empty() {
        m
    } else {
        m.insert(k, get_or_empty(m, k).union(vs))
    }
}

/// `v` removed from the sets of all of `keys`, dropping the sets that become
/// empty.
pub open spec fn with_member_removed(
    m: Map<ChunkSectionPos, Set<ChunkSectionPos>>,
    keys: Set<ChunkSectionPos>,
    v: ChunkSectionPos,
) -> Map<ChunkSectionPos, Set<ChunkSectionPos>> {
    Map::new(
        |k: ChunkSectionPos|
            m.contains_key(k) && !(keys.contains(k) && m[k].remove(v) == Set::<
                ChunkSectionPos,
            >::empty()),
        |k: ChunkSectionPos|
            if keys.contains(k) {
                m[k].remove(v)
            } else {
                m[k]
            },
    )
}

/// The keys of `keys` whose sets hold nothing but `v`.
pub open spec fn emptied_by(
    m: Map<ChunkSectionPos, Set<ChunkSectionPos>>,
    keys: Set<ChunkSectionPos>,
    v: ChunkSectionPos,
) -> Set<ChunkSectionPos> {
    Set::new(
        |k: ChunkSectionPos|
            keys.contains(k) && m[k].remove(v) == Set::<ChunkSectionPos>::empty(),
    )
}

/// The 26 neighbors of `pos`, each once.
pub fn neighbors(pos: ChunkSectionPos) -> (r: Vec<ChunkSectionPos>)
    requires
        interior(pos),
    ensures
        r@.no_duplicates(),
        forall|n: ChunkSectionPos| #[trigger] r@.contains(n) <==> is_neighbor(pos, n),
{
    let mut r: Vec<ChunkSectionPos> = Vec::new();
    let mut dx: i32 = -1;
    while dx <= 1
        invariant
            interior(pos),
            -1 <= dx <= 2,
            r@.no_duplicates(),
            forall|n: ChunkSectionPos| #[trigger]
                r@.contains(n) <==> is_neighbor(pos, n) && n.x - pos.x < dx,
        decreases 2 - dx,
    {
        let mut dy: i32 = -1;
        while dy <= 1
            invariant
                interior(pos),
                -1 <= dx <= 1,
                -1 <= dy <= 2,
                r@.no_duplicates(),
                forall|n: ChunkSectionPos| #[trigger]
                    r@.contains(n) <==> is_neighbor(pos, n) && (n.x - pos.x < dx || (n.x - pos.x
                        == dx && n.y - pos.y < dy)),
            decreases 2 - dy,
        {
            let mut dz: i32 = -1;
            while dz <= 1
                invariant
                    interior(pos),
                    -1 <= dx <= 1,
                    -1 <= dy <= 1,
                    -1 <= dz <= 2,
                    r@.no_duplicates(),
                    forall|n: ChunkSectionPos| #[trigger]
                        r@.contains(n) <==> is_neighbor(pos, n) && (n.x - pos.x < dx || (n.x
                            - pos.x == dx && n.y - pos.y < dy) || (n.x - pos.x == dx && n.y - pos.y
                            == dy && n.z - pos.z < dz)),
                decreases 2 - dz,
            {
                let neighbor = ChunkSectionPos { x: pos.x + dx, y: pos.y + dy, z: pos.z + dz };
                if dx != 0 || dy != 0 || dz != 0 {
                    let ghost before = r@;
                    assert(!before.contains(neighbor));
                    r.push(neighbor);
                    proof {
                        assert forall|a: int, b: int| 0 <= a < b < r@.len() implies r@[a]
                            != r@[b] by {
                            if b == r@.len() - 1 {
                                assert(before.contains(before[a]));
                            }
                        }
                        assert forall|n: ChunkSectionPos| #[trigger]
                            r@.contains(n) <==> is_neighbor(pos, n) && (n.x - pos.x < dx || (n.x
                                - pos.x == dx && n.y - pos.y < dy) || (n.x - pos.x == dx && n.y
                                - pos.y == dy && n.z - pos.z < dz + 1)) by {
                            if r@.contains(n) && n != neighbor {
                                let k = choose|k: int| 0 <= k < r@.len() && r@[k] == n;
                                assert(before[k] == n);
                            }
                            if before.contains(n) {
                                let k = choose|k: int| 0 <= k < before.len() && before[k] == n;
                                assert(r@[k] == n);
                            }
                            assert(r@[r@.len() - 1] == neighbor);
                        }
                    }
                } else {
                    assert(forall|n: ChunkSectionPos|
                        is_neighbor(pos, n) ==> !(n.x - pos.x == dx && n.y - pos.y == dy && n.z
                            - pos.z == dz));
                }
                dz += 1;
            }
            dy += 1;
        }
        dx += 1;
    }
    r
}

/// Adds `v` to the set of `k`, creating it when there is none.
fn add_link(m: &mut VecMap<ChunkSectionPos, VecSet<ChunkSectionPos>>, k: ChunkSectionPos, v: ChunkSectionPos)
    requires
        links_wf(*old(m)),
    ensures
        links_wf(*final(m)),
        sets_of(final(m)@) == sets_of(old(m)@).insert(k, get_or_empty(sets_of(old(m)@), k).insert(v)),
{
    let mut s = match m.remove(&k) {
        Some(s) => s,
        None => VecSet::new(),
    };
    s.insert(v);
    m.insert(k, s);
    assert(sets_of(m@) =~= sets_of(old(m)@).insert(k, get_or_empty(sets_of(old(m)@), k).insert(v)));
}

/// Removes `v` from the set of `k`, dropping the set when it becomes empty;
/// tells whether it did.
fn unlink(m: &mut VecMap<ChunkSectionPos, VecSet<ChunkSectionPos>>, k: ChunkSectionPos, v: ChunkSectionPos) -> (emptied: bool)
    requires
        links_wf(*old(m)),
        old(m)@.contains_key(k),
    ensures
        links_wf(*final(m)),
        emptied == (sets_of(old(m)@)[k].remove(v) == Set::<ChunkSectionPos>::empty()),
        emptied ==> sets_of(final(m)@) == sets_of(old(m)@).remove(k),
        !emptied ==> sets_of(final(m)@) == sets_of(old(m)@).insert(k, sets_of(old(m)@)[k].remove(v)),
{
    let mut s = m.remove(&k).unwrap();
    s.remove(&v);
    if s.is_empty() {
        assert(sets_of(m@) =~= sets_of(old(m)@).remove(k));
        true
    } else {
        m.insert(k, s);
        assert(sets_of(m@) =~= sets_of(old(m)@).insert(k, sets_of(old(m)@)[k].remove(v)));
        false
    }
}

/// Keeps track of which chunk sections are loaded and which of them can be
/// meshed.
#[derive(Debug)]
pub struct MeshTracker {
    constraining: VecMap<ChunkSectionPos, VecSet<ChunkSectionPos>>,
    constrained_by: VecMap<ChunkSectionPos, VecSet<ChunkSectionPos>>,
    needs_mesh: VecSet<ChunkSectionPos>,
    loaded: VecSet<ChunkSectionPos>,
    terrain_entities: VecMap<ChunkSectionPos, u64>,
}

impl MeshTracker {
    /// The loaded sections.
    pub closed spec fn loaded_set(&self) -> Set<ChunkSectionPos> {
        self.loaded@
    }

    /// The sections waiting to be meshed.
    pub closed spec fn needs_mesh_set(&self) -> Set<ChunkSectionPos> {
        self.needs_mesh@
    }

    /// Every section waiting to be meshed is loaded, and so are all of its
    /// neighbors.
    pub open spec fn only_ready_queued(&self) -> bool {
        forall|p: ChunkSectionPos| #[trigger] self.needs_mesh_set().contains(p)
            ==> self.loaded_set().contains(p) && surrounded(self.loaded_set(), p)
    }

    /// The terrain entity of each loaded section.
    pub closed spec fn entities(&self) -> Map<ChunkSectionPos, u64> {
        self.terrain_entities@
    }

    /// For each loaded section, the missing neighbors that keep it from being
    /// meshed.
    pub closed spec fn constrained_by_view(&self) -> Map<ChunkSectionPos, Set<ChunkSectionPos>> {
        sets_of(self.constrained_by@)
    }

    /// For each missing section, the loaded neighbors that wait for it.
    pub closed spec fn constraining_view(&self) -> Map<ChunkSectionPos, Set<ChunkSectionPos>> {
        sets_of(self.constraining@)
    }

    /// The tracker's invariant: the constraints are exactly those that the
    /// set of loaded sections calls for, and each loaded section has a terrain
    /// entity.
    pub closed spec fn inv(&self) -> bool {
        &&& links_wf(self.constraining)
        &&& links_wf(self.constrained_by)
        &&& self.needs_mesh.wf()
        &&& self.loaded.wf()
        &&& self.terrain_entities.wf()
        &&& self.constrained_by_view() == ideal_constrained_by(self.loaded@)
        &&& self.constraining_view() == ideal_constraining(self.loaded@)
        &&& self.terrain_entities@.dom() == self.loaded@
    }

    pub fn new() -> (r: Self)
        ensures
            r.inv(),
            r.only_ready_queued(),
            r.loaded_set() == Set::<ChunkSectionPos>::empty(),
            r.needs_mesh_set() == Set::<ChunkSectionPos>::empty(),
    {
        let r = MeshTracker {
            constraining: VecMap::new(),
            constrained_by: VecMap::new(),
            needs_mesh: VecSet::new(),
            loaded: VecSet::new(),
            terrain_entities: VecMap::new(),
        };
        assert(r.constrained_by_view() =~= ideal_constrained_by(r.loaded@));
        assert(r.constraining_view() =~= ideal_constraining(r.loaded@)) by {
            assert forall|y: ChunkSectionPos| !(#[trigger] ideal_constraining(r.loaded@).contains_key(
                y,
            )) by {
                assert(loaded_neighbors(r.loaded@, y) =~= Set::<ChunkSectionPos>::empty());
            }
        }
        assert(r.terrain_entities@.dom() =~= r.loaded@);
        r
    }
}


impl MeshTracker {
    fn constrain_self(&mut self, center: ChunkSectionPos)
        requires
            links_wf(old(self).constraining),
            links_wf(old(self).constrained_by),
            old(self).loaded.wf(),
            interior(center),
        ensures
            links_wf(final(self).constraining),
            links_wf(final(self).constrained_by),
            final(self).loaded == old(self).loaded,
            final(self).needs_mesh == old(self).needs_mesh,
            final(self).terrain_entities == old(self).terrain_entities,
            final(self).constraining_view() == with_member_added(
                old(self).constraining_view(),
                missing_neighbors(old(self).loaded@, center),
                center,
            ),
            final(self).constrained_by_view() == with_members(
                old(self).constrained_by_view(),
                center,
                missing_neighbors(old(self).loaded@, center),
            ),
    {
        let ns = neighbors(center);
        let ghost cs0 = self.constraining_view();
        let ghost cb0 = self.constrained_by_view();
        let ghost loaded = self.loaded@;
        let mut i: usize = 0;
        proof {
            let u = Set::new(|n: ChunkSectionPos| ns@.take(0).contains(n) && !loaded.contains(n));
            assert(u =~= Set::<ChunkSectionPos>::empty());
            assert(with_member_added(cs0, u, center) =~= cs0);
        }
        while i < ns.len()
            invariant
                links_wf(self.constraining),
                links_wf(self.constrained_by),
                self.loaded == old(self).loaded,
                self.needs_mesh == old(self).needs_mesh,
                self.terrain_entities == old(self).terrain_entities,
                loaded == self.loaded@,
                cs0 == old(self).constraining_view(),
                cb0 == old(self).constrained_by_view(),
                ns@.no_duplicates(),
                forall|m: ChunkSectionPos| #[trigger] ns@.contains(m) <==> is_neighbor(center, m),
                i <= ns@.len(),
                self.constraining_view() == with_member_added(
                    cs0,
                    Set::new(|n: ChunkSectionPos| ns@.take(i as int).contains(n) && !loaded.contains(n)),
                    center,
                ),
                self.constrained_by_view() == with_members(
                    cb0,
                    center,
                    Set::new(|n: ChunkSectionPos| ns@.take(i as int).contains(n) && !loaded.contains(n)),
                ),
            decreases ns@.len() - i,
        {
            let n = ns[i];
            let ghost u0 = Set::new(
                |m: ChunkSectionPos| ns@.take(i as int).contains(m) && !loaded.contains(m),
            );
            let ghost u1 = Set::new(
                |m: ChunkSectionPos| ns@.take(i + 1).contains(m) && !loaded.contains(m),
            );
            proof {
                assert forall|m: ChunkSectionPos| #[trigger]
                    ns@.take(i + 1).contains(m) <==> ns@.take(i as int).contains(m) || m == n by {
                    if ns@.take(i + 1).contains(m) && m != n {
                        let k = choose|k: int| 0 <= k < i + 1 && #[trigger] ns@.take(i + 1)[k] == m;
                        assert(ns@.take(i as int)[k] == m);
                    }
                    if ns@.take(i as int).contains(m) {
                        let k = choose|k: int| 0 <= k < i && #[trigger] ns@.take(i as int)[k] == m;
                        assert(ns@.take(i + 1)[k] == m);
                    }
                    assert(ns@.take(i + 1)[i as int] == n);
                }
                assert(!ns@.take(i as int).contains(n)) by {
                    if ns@.take(i as int).contains(n) {
                        let k = choose|k: int| 0 <= k < i && #[trigger] ns@.take(i as int)[k] == n;
                        assert(ns@[k] == n);
                        assert(ns@[i as int] == n);
                        assert(ns@.no_duplicates());
                        assert(false);
                    }
                }
                assert(!u0.contains(n));
            }
            if !self.loaded.contains(&n) {
                add_link(&mut self.constraining, n, center);
                add_link(&mut self.constrained_by, center, n);
                proof {
                    assert(u1 =~= u0.insert(n));
                    assert(self.constraining_view() =~= with_member_added(cs0, u1, center));
                    assert(u1 != Set::<ChunkSectionPos>::empty()) by {
                        assert(u1.contains(n));
                    }
                    if u0 == Set::<ChunkSectionPos>::empty() {
                        assert(get_or_empty(cb0, center).insert(n) =~= get_or_empty(cb0, center).union(u1));
                    } else {
                        assert(get_or_empty(cb0, center).union(u0).insert(n) =~= get_or_empty(cb0, center).union(u1));
                    }
                    assert(self.constrained_by_view() =~= with_members(cb0, center, u1));
                }
            } else {
                proof {
                    assert(u1 =~= u0);
                }
            }
            i += 1;
        }
        proof {
            let u = Set::new(|m: ChunkSectionPos| ns@.take(i as int).contains(m) && !loaded.contains(m));
            assert(ns@.take(i as int) =~= ns@);
            assert(u =~= missing_neighbors(loaded, center));
        }
    }
}


proof fn lemma_take_push<T>(s: Seq<T>, i: int)
    requires
        0 <= i < s.len(),
        s.no_duplicates(),
    ensures
        forall|m: T| #[trigger] s.take(i + 1).contains(m) <==> s.take(i).contains(m) || m == s[i],
        !s.take(i).contains(s[i]),
{
    assert forall|m: T| #[trigger] s.take(i + 1).contains(m) <==> s.take(i).contains(m) || m == s[i] by {
        if s.take(i + 1).contains(m) && m != s[i] {
            let k = choose|k: int| 0 <= k < i + 1 && #[trigger] s.take(i + 1)[k] == m;
            assert(s.take(i)[k] == m);
        }
        if s.take(i).contains(m) {
            let k = choose|k: int| 0 <= k < i && #[trigger] s.take(i)[k] == m;
            assert(s.take(i + 1)[k] == m);
        }
        assert(s.take(i + 1)[i] == s[i]);
    }
    if s.take(i).contains(s[i]) {
        let k = choose|k: int| 0 <= k < i && #[trigger] s.take(i)[k] == s[i];
        assert(s[k] == s[i]);
        assert(false);
    }
}

impl MeshTracker {
    fn constrain_neighbors(&mut self, center: ChunkSectionPos)
        requires
            links_wf(old(self).constraining),
            links_wf(old(self).constrained_by),
            old(self).loaded.wf(),
            old(self).needs_mesh.wf(),
            interior(center),
        ensures
            links_wf(final(self).constraining),
            links_wf(final(self).constrained_by),
            final(self).needs_mesh.wf(),
            final(self).loaded == old(self).loaded,
            final(self).terrain_entities == old(self).terrain_entities,
            final(self).constraining_view() == with_members(
                old(self).constraining_view(),
                center,
                loaded_neighbors(old(self).loaded@, center),
            ),
            final(self).constrained_by_view() == with_member_added(
                old(self).constrained_by_view(),
                loaded_neighbors(old(self).loaded@, center),
                center,
            ),
            final(self).needs_mesh@ == old(self).needs_mesh@.difference(
                loaded_neighbors(old(self).loaded@, center),
            ),
    {
        let ns = neighbors(center);
        let ghost cs0 = self.constraining_view();
        let ghost cb0 = self.constrained_by_view();
        let ghost nm0 = self.needs_mesh@;
        let ghost loaded = self.loaded@;
        let mut i: usize = 0;
        proof {
            let u = Set::new(|n: ChunkSectionPos| ns@.take(0).contains(n) && loaded.contains(n));
            assert(u =~= Set::<ChunkSectionPos>::empty());
            assert(with_member_added(cb0, u, center) =~= cb0);
            assert(nm0.difference(u) =~= nm0);
        }
        while i < ns.len()
            invariant
                links_wf(self.constraining),
                links_wf(self.constrained_by),
                self.needs_mesh.wf(),
                self.loaded == old(self).loaded,
                self.terrain_entities == old(self).terrain_entities,
                loaded == self.loaded@,
                cs0 == old(self).constraining_view(),
                cb0 == old(self).constrained_by_view(),
                nm0 == old(self).needs_mesh@,
                ns@.no_duplicates(),
                forall|m: ChunkSectionPos| #[trigger] ns@.contains(m) <==> is_neighbor(center, m),
                i <= ns@.len(),
                self.constraining_view() == with_members(
                    cs0,
                    center,
                    Set::new(|n: ChunkSectionPos| ns@.take(i as int).contains(n) && loaded.contains(n)),
                ),
                self.constrained_by_view() == with_member_added(
                    cb0,
                    Set::new(|n: ChunkSectionPos| ns@.take(i as int).contains(n) && loaded.contains(n)),
                    center,
                ),
                self.needs_mesh@ == nm0.difference(
                    Set::new(|n: ChunkSectionPos| ns@.take(i as int).contains(n) && loaded.contains(n)),
                ),
            decreases ns@.len() - i,
        {
            let n = ns[i];
            let ghost u0 = Set::new(
                |m: ChunkSectionPos| ns@.take(i as int).contains(m) && loaded.contains(m),
            );
            let ghost u1 = Set::new(
                |m: ChunkSectionPos| ns@.take(i + 1).contains(m) && loaded.contains(m),
            );
            proof {
                lemma_take_push(ns@, i as int);
                assert(!u0.contains(n));
            }
            if self.loaded.contains(&n) {
                add_link(&mut self.constraining, center, n);
                add_link(&mut self.constrained_by, n, center);
                self.needs_mesh.remove(&n);
                proof {
                    assert(u1 =~= u0.insert(n));
                    assert(self.constrained_by_view() =~= with_member_added(cb0, u1, center));
                    assert(u1 != Set::<ChunkSectionPos>::empty()) by {
                        assert(u1.contains(n));
                    }
                    if u0 == Set::<ChunkSectionPos>::empty() {
                        assert(get_or_empty(cs0, center).insert(n) =~= get_or_empty(cs0, center).union(u1));
                    } else {
                        assert(get_or_empty(cs0, center).union(u0).insert(n) =~= get_or_empty(cs0, center).union(u1));
                    }
                    assert(self.constraining_view() =~= with_members(cs0, center, u1));
                    assert(self.needs_mesh@ =~= nm0.difference(u1));
                }
            } else {
                proof {
                    assert(u1 =~= u0);
                }
            }
            i += 1;
        }
        proof {
            let u = Set::new(|m: ChunkSectionPos| ns@.take(i as int).contains(m) && loaded.contains(m));
            assert(ns@.take(i as int) =~= ns@);
            assert(u =~= loaded_neighbors(loaded, center));
        }
    }

    fn unconstrain_self(&mut self, center: ChunkSectionPos)
        requires
            links_wf(old(self).constraining),
            links_wf(old(self).constrained_by),
            forall|c: ChunkSectionPos|
                #[trigger] get_or_empty(old(self).constrained_by_view(), center).contains(c)
                    ==> old(self).constraining_view().contains_key(c),
        ensures
            links_wf(final(self).constraining),
            links_wf(final(self).constrained_by),
            final(self).loaded == old(self).loaded,
            final(self).needs_mesh == old(self).needs_mesh,
            final(self).terrain_entities == old(self).terrain_entities,
            final(self).constrained_by_view() == old(self).constrained_by_view().remove(center),
            final(self).constraining_view() == with_member_removed(
                old(self).constraining_view(),
                get_or_empty(old(self).constrained_by_view(), center),
                center,
            ),
    {
        let ghost cs0 = self.constraining_view();
        let ghost cb0 = self.constrained_by_view();
        let constrainers = match self.constrained_by.remove(&center) {
            Some(constrainers) => constrainers,
            None => {
                assert(self.constrained_by_view() =~= cb0.remove(center));
                assert(with_member_removed(cs0, get_or_empty(cb0, center), center) =~= cs0);
                return ;
            },
        };
        assert(self.constrained_by_view() =~= cb0.remove(center));
        let items = constrainers.as_slice();
        let ghost set0 = get_or_empty(cb0, center);
        assert(constrainers@ == set0);
        let mut i: usize = 0;
        proof {
            let u = items@.take(0).to_set();
            assert(u =~= Set::<ChunkSectionPos>::empty());
            assert(with_member_removed(cs0, u, center) =~= cs0);
        }
        while i < items.len()
            invariant
                links_wf(self.constraining),
                links_wf(self.constrained_by),
                self.loaded == old(self).loaded,
                self.needs_mesh == old(self).needs_mesh,
                self.terrain_entities == old(self).terrain_entities,
                self.constrained_by_view() == cb0.remove(center),
                cs0 == old(self).constraining_view(),
                items@.no_duplicates(),
                items@.to_set() == set0,
                forall|c: ChunkSectionPos| #[trigger] set0.contains(c) ==> cs0.contains_key(c),
                i <= items@.len(),
                self.constraining_view() == with_member_removed(cs0, items@.take(i as int).to_set(), center),
            decreases items@.len() - i,
        {
            let c = items[i];
            proof {
                lemma_take_push(items@, i as int);
                assert(set0.contains(c));
                assert(!items@.take(i as int).to_set().contains(c));
                assert(self.constraining_view().contains_key(c));
                assert(sets_of(self.constraining@).contains_key(c));
            }
            let _ = unlink(&mut self.constraining, c, center);
            proof {
                let u0 = items@.take(i as int).to_set();
                let u1 = items@.take(i + 1).to_set();
                assert(u1 =~= u0.insert(c));
                assert(self.constraining_view() =~= with_member_removed(cs0, u1, center));
            }
            i += 1;
        }
        assert(items@.take(i as int) =~= items@);
    }

    fn unconstrain_neighbors(&mut self, center: ChunkSectionPos)
        requires
            links_wf(old(self).constraining),
            links_wf(old(self).constrained_by),
            old(self).needs_mesh.wf(),
            forall|n: ChunkSectionPos|
                #[trigger] get_or_empty(old(self).constraining_view(), center).contains(n)
                    ==> old(self).constrained_by_view().contains_key(n),
        ensures
            links_wf(final(self).constraining),
            links_wf(final(self).constrained_by),
            final(self).needs_mesh.wf(),
            final(self).loaded == old(self).loaded,
            final(self).terrain_entities == old(self).terrain_entities,
            final(self).constraining_view() == old(self).constraining_view().remove(center),
            final(self).constrained_by_view() == with_member_removed(
                old(self).constrained_by_view(),
                get_or_empty(old(self).constraining_view(), center),
                center,
            ),
            final(self).needs_mesh@ == old(self).needs_mesh@.union(
                emptied_by(
                    old(self).constrained_by_view(),
                    get_or_empty(old(self).constraining_view(), center),
                    center,
                ),
            ),
    {
        let ghost cs0 = self.constraining_view();
        let ghost cb0 = self.constrained_by_view();
        let ghost nm0 = self.needs_mesh@;
        let constraining = match self.constraining.remove(&center) {
            Some(constraining) => constraining,
            None => {
                assert(self.constraining_view() =~= cs0.remove(center));
                assert(with_member_removed(cb0, get_or_empty(cs0, center), center) =~= cb0);
                assert(nm0.union(emptied_by(cb0, get_or_empty(cs0, center), center)) =~= nm0);
                return ;
            },
        };
        assert(self.constraining_view() =~= cs0.remove(center));
        let items = constraining.as_slice();
        let ghost set0 = get_or_empty(cs0, center);
        assert(constraining@ == set0);
        let mut i: usize = 0;
        proof {
            let u = items@.take(0).to_set();
            assert(u =~= Set::<ChunkSectionPos>::empty());
            assert(with_member_removed(cb0, u, center) =~= cb0);
            assert(nm0.union(emptied_by(cb0, u, center)) =~= nm0);
        }
        while i < items.len()
            invariant
                links_wf(self.constraining),
                links_wf(self.constrained_by),
                self.needs_mesh.wf(),
                self.loaded == old(self).loaded,
                self.terrain_entities == old(self).terrain_entities,
                self.constraining_view() == cs0.remove(center),
                cb0 == old(self).constrained_by_view(),
                nm0 == old(self).needs_mesh@,
                items@.no_duplicates(),
                items@.to_set() == set0,
                forall|n: ChunkSectionPos| #[trigger] set0.contains(n) ==> cb0.contains_key(n),
                i <= items@.len(),
                self.constrained_by_view() == with_member_removed(cb0, items@.take(i as int).to_set(), center),
                self.needs_mesh@ == nm0.union(emptied_by(cb0, items@.take(i as int).to_set(), center)),
            decreases items@.len() - i,
        {
            let n = items[i];
            proof {
                lemma_take_push(items@, i as int);
                assert(set0.contains(n));
                assert(!items@.take(i as int).to_set().contains(n));
                assert(self.constrained_by_view().contains_key(n));
                assert(sets_of(self.constrained_by@).contains_key(n));
            }
            let emptied = unlink(&mut self.constrained_by, n, center);
            if emptied {
                self.needs_mesh.insert(n);
            }
            proof {
                let u0 = items@.take(i as int).to_set();
                let u1 = items@.take(i + 1).to_set();
                assert(u1 =~= u0.insert(n));
                assert(self.constrained_by_view() =~= with_member_removed(cb0, u1, center));
                assert(self.needs_mesh@ =~= nm0.union(emptied_by(cb0, u1, center)));
            }
            i += 1;
        }
        assert(items@.take(i as int) =~= items@);
    }
}


/// A section is surrounded exactly when none of its neighbors is missing.
pub proof fn lemma_surrounded_iff(loaded: Set<ChunkSectionPos>, x: ChunkSectionPos)
    ensures
        surrounded(loaded, x) <==> missing_neighbors(loaded, x) == Set::<ChunkSectionPos>::empty(),
{
    if surrounded(loaded, x) {
        assert(missing_neighbors(loaded, x) =~= Set::<ChunkSectionPos>::empty());
    }
    if missing_neighbors(loaded, x) == Set::<ChunkSectionPos>::empty() {
        assert forall|n: ChunkSectionPos| is_neighbor(x, n) implies #[trigger] loaded.contains(n) by {
            if !loaded.contains(n) {
                assert(missing_neighbors(loaded, x).contains(n));
            }
        }
    }
}

proof fn lemma_ideal_get_or_empty(loaded: Set<ChunkSectionPos>, x: ChunkSectionPos)
    ensures
        loaded.contains(x) ==> get_or_empty(ideal_constrained_by(loaded), x) == missing_neighbors(loaded, x),
        !loaded.contains(x) ==> get_or_empty(ideal_constraining(loaded), x) == loaded_neighbors(loaded, x),
{
    lemma_surrounded_iff(loaded, x);
}

proof fn lemma_add_constrained_by(loaded: Set<ChunkSectionPos>, c: ChunkSectionPos)
    requires
        !loaded.contains(c),
    ensures
        ideal_constrained_by(loaded.insert(c)) == with_member_removed(
            with_members(ideal_constrained_by(loaded), c, missing_neighbors(loaded, c)),
            loaded_neighbors(loaded, c),
            c,
        ),
{
    let l1 = loaded.insert(c);
    let m1 = with_members(ideal_constrained_by(loaded), c, missing_neighbors(loaded, c));
    let lhs = ideal_constrained_by(l1);
    let rhs = with_member_removed(m1, loaded_neighbors(loaded, c), c);
    assert(missing_neighbors(l1, c) =~= missing_neighbors(loaded, c));
    lemma_surrounded_iff(l1, c);
    lemma_surrounded_iff(loaded, c);
    assert forall|k: ChunkSectionPos| #[trigger] lhs.contains_key(k) <==> rhs.contains_key(k) by {
        lemma_surrounded_iff(l1, k);
        lemma_surrounded_iff(loaded, k);
        if k != c && loaded.contains(k) {
            if is_neighbor(k, c) {
                assert(missing_neighbors(l1, k) =~= missing_neighbors(loaded, k).remove(c));
                assert(missing_neighbors(loaded, k).contains(c));
                assert(loaded_neighbors(loaded, c).contains(k));
            } else {
                assert(missing_neighbors(l1, k) =~= missing_neighbors(loaded, k));
                assert(!loaded_neighbors(loaded, c).contains(k));
            }
        }
    }
    assert forall|k: ChunkSectionPos| lhs.contains_key(k) implies #[trigger] lhs[k] == rhs[k] by {
        lemma_surrounded_iff(l1, k);
        lemma_surrounded_iff(loaded, k);
        if k != c {
            if is_neighbor(k, c) {
                assert(missing_neighbors(l1, k) =~= missing_neighbors(loaded, k).remove(c));
                assert(loaded_neighbors(loaded, c).contains(k));
            } else {
                assert(missing_neighbors(l1, k) =~= missing_neighbors(loaded, k));
                assert(!loaded_neighbors(loaded, c).contains(k));
            }
        } else {
            assert(!loaded_neighbors(loaded, c).contains(c));
            assert(get_or_empty(ideal_constrained_by(loaded), c).union(missing_neighbors(loaded, c))
                =~= missing_neighbors(loaded, c));
        }
    }
    assert(lhs =~= rhs);
}

proof fn lemma_add_constraining(loaded: Set<ChunkSectionPos>, c: ChunkSectionPos)
    requires
        !loaded.contains(c),
    ensures
        ideal_constraining(loaded.insert(c)) == with_member_added(
            ideal_constraining(loaded),
            missing_neighbors(loaded, c),
            c,
        ).remove(c),
{
    let l1 = loaded.insert(c);
    let lhs = ideal_constraining(l1);
    let rhs = with_member_added(ideal_constraining(loaded), missing_neighbors(loaded, c), c).remove(c);
    assert forall|y: ChunkSectionPos| #[trigger] lhs.contains_key(y) <==> rhs.contains_key(y) by {
        lemma_ideal_get_or_empty(loaded, y);
        if y != c && !loaded.contains(y) {
            if is_neighbor(y, c) {
                assert(loaded_neighbors(l1, y) =~= loaded_neighbors(loaded, y).insert(c));
                assert(loaded_neighbors(l1, y).contains(c));
                assert(missing_neighbors(loaded, c).contains(y));
            } else {
                assert(loaded_neighbors(l1, y) =~= loaded_neighbors(loaded, y));
            }
        }
    }
    assert forall|y: ChunkSectionPos| lhs.contains_key(y) implies #[trigger] lhs[y] == rhs[y] by {
        lemma_ideal_get_or_empty(loaded, y);
        if is_neighbor(y, c) {
            assert(loaded_neighbors(l1, y) =~= loaded_neighbors(loaded, y).insert(c));
            assert(missing_neighbors(loaded, c).contains(y));
        } else {
            assert(loaded_neighbors(l1, y) =~= loaded_neighbors(loaded, y));
        }
    }
    assert(lhs =~= rhs);
}

proof fn lemma_remove_constrained_by(loaded: Set<ChunkSectionPos>, c: ChunkSectionPos)
    requires
        loaded.contains(c),
    ensures
        ideal_constrained_by(loaded.remove(c)) == with_member_added(
            ideal_constrained_by(loaded).remove(c),
            loaded_neighbors(loaded.remove(c), c),
            c,
        ),
{
    let l1 = loaded.remove(c);
    let lhs = ideal_constrained_by(l1);
    let rhs = with_member_added(ideal_constrained_by(loaded).remove(c), loaded_neighbors(l1, c), c);
    assert forall|k: ChunkSectionPos| #[trigger] lhs.contains_key(k) <==> rhs.contains_key(k) by {
        lemma_surrounded_iff(l1, k);
        lemma_surrounded_iff(loaded, k);
        if k != c && loaded.contains(k) {
            if is_neighbor(k, c) {
                assert(missing_neighbors(l1, k) =~= missing_neighbors(loaded, k).insert(c));
                assert(missing_neighbors(l1, k).contains(c));
                assert(loaded_neighbors(l1, c).contains(k));
            } else {
                assert(missing_neighbors(l1, k) =~= missing_neighbors(loaded, k));
            }
        }
    }
    assert forall|k: ChunkSectionPos| lhs.contains_key(k) implies #[trigger] lhs[k] == rhs[k] by {
        lemma_ideal_get_or_empty(loaded, k);
        lemma_surrounded_iff(l1, k);
        lemma_surrounded_iff(loaded, k);
        if is_neighbor(k, c) {
            assert(missing_neighbors(l1, k) =~= missing_neighbors(loaded, k).insert(c));
            assert(loaded_neighbors(l1, c).contains(k));
            assert(get_or_empty(ideal_constrained_by(loaded).remove(c), k) == missing_neighbors(loaded, k));
        } else {
            assert(missing_neighbors(l1, k) =~= missing_neighbors(loaded, k));
        }
    }
    assert(lhs =~= rhs);
}

proof fn lemma_remove_constraining(loaded: Set<ChunkSectionPos>, c: ChunkSectionPos)
    requires
        loaded.contains(c),
    ensures
        ideal_constraining(loaded.remove(c)) == with_members(
            with_member_removed(ideal_constraining(loaded), missing_neighbors(loaded, c), c),
            c,
            loaded_neighbors(loaded.remove(c), c),
        ),
{
    let l1 = loaded.remove(c);
    let m1 = with_member_removed(ideal_constraining(loaded), missing_neighbors(loaded, c), c);
    let lhs = ideal_constraining(l1);
    let rhs = with_members(m1, c, loaded_neighbors(l1, c));
    assert(loaded_neighbors(l1, c) =~= loaded_neighbors(loaded, c));
    assert forall|y: ChunkSectionPos| #[trigger] lhs.contains_key(y) <==> rhs.contains_key(y) by {
        if y != c && !loaded.contains(y) {
            if is_neighbor(y, c) {
                assert(loaded_neighbors(l1, y) =~= loaded_neighbors(loaded, y).remove(c));
                assert(loaded_neighbors(loaded, y).contains(c));
                assert(missing_neighbors(loaded, c).contains(y));
            } else {
                assert(loaded_neighbors(l1, y) =~= loaded_neighbors(loaded, y));
            }
        }
        if y == c && loaded_neighbors(l1, c) != Set::<ChunkSectionPos>::empty() {
            assert(rhs.contains_key(c));
        }
    }
    assert forall|y: ChunkSectionPos| lhs.contains_key(y) implies #[trigger] lhs[y] == rhs[y] by {
        if y != c {
            if is_neighbor(y, c) {
                assert(loaded_neighbors(l1, y) =~= loaded_neighbors(loaded, y).remove(c));
                assert(missing_neighbors(loaded, c).contains(y));
            } else {
                assert(loaded_neighbors(l1, y) =~= loaded_neighbors(loaded, y));
            }
        } else {
            assert(!m1.contains_key(c));
            assert(get_or_empty(m1, c).union(loaded_neighbors(l1, c)) =~= loaded_neighbors(l1, c));
        }
    }
    assert(lhs =~= rhs);
}


proof fn lemma_constrain_loaded_is_noop(loaded: Set<ChunkSectionPos>, c: ChunkSectionPos)
    requires
        loaded.contains(c),
    ensures
        with_member_added(ideal_constraining(loaded), missing_neighbors(loaded, c), c)
            == ideal_constraining(loaded),
        with_members(ideal_constrained_by(loaded), c, missing_neighbors(loaded, c))
            == ideal_constrained_by(loaded),
{
    let cs = ideal_constraining(loaded);
    let a = with_member_added(cs, missing_neighbors(loaded, c), c);
    assert forall|y: ChunkSectionPos| #[trigger] a.contains_key(y) <==> cs.contains_key(y) by {
        if missing_neighbors(loaded, c).contains(y) {
            assert(loaded_neighbors(loaded, y).contains(c));
        }
    }
    assert forall|y: ChunkSectionPos| a.contains_key(y) implies #[trigger] a[y] == cs[y] by {
        if missing_neighbors(loaded, c).contains(y) {
            assert(loaded_neighbors(loaded, y).contains(c));
            assert(get_or_empty(cs, y).insert(c) =~= cs[y]);
        }
    }
    assert(a =~= cs);
    lemma_surrounded_iff(loaded, c);
    let cb = ideal_constrained_by(loaded);
    if missing_neighbors(loaded, c) != Set::<ChunkSectionPos>::empty() {
        assert(get_or_empty(cb, c).union(missing_neighbors(loaded, c)) =~= missing_neighbors(loaded, c));
        assert(cb.insert(c, missing_neighbors(loaded, c)) =~= cb);
    }
}

impl MeshTracker {
    /// Queues `chunk` for meshing when it is loaded and all its neighbors are.
    pub fn request_mesh(&mut self, chunk: ChunkSectionPos)
        requires
            old(self).inv(),
        ensures
            final(self).inv(),
            final(self).loaded_set() == old(self).loaded_set(),
            final(self).entities() == old(self).entities(),
            final(self).needs_mesh_set() == if old(self).loaded_set().contains(chunk) && surrounded(
                old(self).loaded_set(),
                chunk,
            ) {
                old(self).needs_mesh_set().insert(chunk)
            } else {
                old(self).needs_mesh_set()
            },
            old(self).only_ready_queued() ==> final(self).only_ready_queued(),
    {
        proof {
            lemma_surrounded_iff(self.loaded@, chunk);
        }
        let is_unconstrained = !self.constrained_by.contains_key(&chunk);
        let is_loaded = self.loaded.contains(&chunk);
        proof {
            assert(sets_of(self.constrained_by@).contains_key(chunk) == self.constrained_by@.contains_key(chunk));
        }
        if is_unconstrained && is_loaded {
            self.needs_mesh.insert(chunk);
        }
    }

    /// Meshing `chunk` failed: it is queued again when it can be meshed now.
    pub fn chunk_mesh_failed(&mut self, chunk: ChunkSectionPos)
        requires
            old(self).inv(),
            old(self).loaded_set().contains(chunk) ==> interior(chunk),
        ensures
            final(self).inv(),
            final(self).loaded_set() == old(self).loaded_set(),
            final(self).entities() == old(self).entities(),
            final(self).needs_mesh_set() == if old(self).loaded_set().contains(chunk) && surrounded(
                old(self).loaded_set(),
                chunk,
            ) {
                old(self).needs_mesh_set().insert(chunk)
            } else {
                old(self).needs_mesh_set()
            },
            old(self).only_ready_queued() ==> final(self).only_ready_queued(),
    {
        if !self.loaded.contains(&chunk) {
            return;
        }
        proof {
            lemma_constrain_loaded_is_noop(self.loaded@, chunk);
        }
        self.constrain_self(chunk);
        self.request_mesh(chunk);
    }

    /// Starts tracking the newly loaded section `chunk`, whose terrain is
    /// drawn by `entity`. The sections that it was the last missing neighbor
    /// of, and `chunk` itself when all its neighbors are loaded, are queued
    /// for meshing.
    pub fn add_chunk(&mut self, chunk: ChunkSectionPos, entity: u64)
        requires
            old(self).inv(),
            !old(self).loaded_set().contains(chunk),
            interior(chunk),
        ensures
            final(self).inv(),
            final(self).loaded_set() == old(self).loaded_set().insert(chunk),
            final(self).entities() == old(self).entities().insert(chunk, entity),
            final(self).needs_mesh_set() == old(self).needs_mesh_set().union(
                Set::new(
                    |n: ChunkSectionPos|
                        (n == chunk || is_neighbor(chunk, n)) && final(self).loaded_set().contains(n)
                            && surrounded(final(self).loaded_set(), n),
                ),
            ),
            old(self).only_ready_queued() ==> final(self).only_ready_queued(),
    {
        let ghost l0 = self.loaded@;
        let ghost cs0 = self.constraining_view();
        let ghost cb0 = self.constrained_by_view();
        let ghost nm0 = self.needs_mesh@;
        self.loaded.insert(chunk);
        self.terrain_entities.insert(chunk, entity);
        let ghost l1 = self.loaded@;
        proof {
            assert(missing_neighbors(l1, chunk) =~= missing_neighbors(l0, chunk));
            lemma_add_constrained_by(l0, chunk);
            lemma_add_constraining(l0, chunk);
            lemma_ideal_get_or_empty(l0, chunk);
            assert(self.terrain_entities@.dom() =~= l1);
        }
        self.constrain_self(chunk);
        let ghost cs1 = self.constraining_view();
        let ghost cb1 = self.constrained_by_view();
        proof {
            assert(!missing_neighbors(l0, chunk).contains(chunk));
            assert(get_or_empty(cs1, chunk) == get_or_empty(cs0, chunk));
            assert forall|n: ChunkSectionPos| #[trigger]
                get_or_empty(cs1, chunk).contains(n) implies cb1.contains_key(n) by {
                assert(loaded_neighbors(l0, chunk).contains(n));
                assert(missing_neighbors(l0, n).contains(chunk));
                lemma_surrounded_iff(l0, n);
            }
        }
        self.unconstrain_neighbors(chunk);
        proof {
            assert(self.constraining_view() =~= ideal_constraining(l1));
            assert(self.constrained_by_view() == ideal_constrained_by(l1));
        }
        let ghost nm1 = self.needs_mesh@;
        self.request_mesh(chunk);
        proof {
            let added = Set::new(
                |n: ChunkSectionPos|
                    (n == chunk || is_neighbor(chunk, n)) && l1.contains(n) && surrounded(l1, n),
            );
            let em = emptied_by(cb1, loaded_neighbors(l0, chunk), chunk);
            assert forall|n: ChunkSectionPos| #[trigger] em.contains(n) <==> (is_neighbor(chunk, n)
                && l1.contains(n) && surrounded(l1, n)) by {
                lemma_surrounded_iff(l1, n);
                lemma_surrounded_iff(l0, n);
                if is_neighbor(chunk, n) && l0.contains(n) {
                    assert(loaded_neighbors(l0, chunk).contains(n));
                    assert(missing_neighbors(l0, n).contains(chunk));
                    assert(cb1[n] == missing_neighbors(l0, n));
                    assert(missing_neighbors(l1, n) =~= missing_neighbors(l0, n).remove(chunk));
                }
            }
            assert(self.needs_mesh@ =~= nm0.union(added));
        }
    }

    /// Stops tracking the unloaded section `chunk`, and gives back its terrain
    /// entity. It and its loaded neighbors leave the meshing queue.
    pub fn remove_chunk(&mut self, chunk: ChunkSectionPos) -> (entity: u64)
        requires
            old(self).inv(),
            old(self).loaded_set().contains(chunk),
            interior(chunk),
        ensures
            final(self).inv(),
            final(self).loaded_set() == old(self).loaded_set().remove(chunk),
            entity == old(self).entities()[chunk],
            final(self).entities() == old(self).entities().remove(chunk),
            final(self).needs_mesh_set() == old(self).needs_mesh_set().difference(
                loaded_neighbors(final(self).loaded_set(), chunk),
            ).remove(chunk),
            !final(self).needs_mesh_set().contains(chunk),
            old(self).only_ready_queued() ==> final(self).only_ready_queued(),
    {
        let ghost l0 = self.loaded@;
        let ghost cs0 = self.constraining_view();
        let ghost cb0 = self.constrained_by_view();
        self.loaded.remove(&chunk);
        let entity = match self.terrain_entities.remove(&chunk) {
            Some(e) => e,
            None => {
                assert(false);
                0
            },
        };
        let ghost l1 = self.loaded@;
        proof {
            lemma_remove_constrained_by(l0, chunk);
            lemma_remove_constraining(l0, chunk);
            lemma_ideal_get_or_empty(l0, chunk);
            assert(self.terrain_entities@.dom() =~= l1);
            assert forall|c: ChunkSectionPos| #[trigger]
                get_or_empty(cb0, chunk).contains(c) implies cs0.contains_key(c) by {
                assert(missing_neighbors(l0, chunk).contains(c));
                assert(loaded_neighbors(l0, c).contains(chunk));
            }
        }
        self.unconstrain_self(chunk);
        self.constrain_neighbors(chunk);
        proof {
            assert(self.constraining_view() == ideal_constraining(l1));
            assert(self.constrained_by_view() == ideal_constrained_by(l1));
        }
        let ghost nm1 = self.needs_mesh@;
        self.needs_mesh.remove(&chunk);
        proof {
            assert(self.needs_mesh@ =~= nm1.remove(chunk));
        }
        entity
    }

    /// Takes a section off the meshing queue, or `None` when it is empty.
    pub fn next(&mut self) -> (r: Option<ChunkSectionPos>)
        requires
            old(self).inv(),
            forall|p: ChunkSectionPos| #[trigger]
                old(self).needs_mesh_set().contains(p) && old(self).loaded_set().contains(p)
                    ==> surrounded(old(self).loaded_set(), p),
        ensures
            final(self).inv(),
            final(self).loaded_set() == old(self).loaded_set(),
            final(self).entities() == old(self).entities(),
            match r {
                Some(p) => old(self).needs_mesh_set().contains(p) && final(self).needs_mesh_set()
                    == old(self).needs_mesh_set().remove(p),
                None => old(self).needs_mesh_set() == Set::<ChunkSectionPos>::empty()
                    && final(self).needs_mesh_set() == old(self).needs_mesh_set(),
            },
            old(self).only_ready_queued() ==> final(self).only_ready_queued(),
            old(self).only_ready_queued() && r is Some
                ==> final(self).loaded_set().contains(r->0) && surrounded(final(self).loaded_set(), r->0),
    {
        let items = self.needs_mesh.as_slice();
        if items.len() == 0 {
            assert(self.needs_mesh@ =~= Set::<ChunkSectionPos>::empty());
            return None;
        }
        let pos = items[0];
        assert(self.needs_mesh@.contains(pos));
        self.needs_mesh.remove(&pos);
        Some(pos)
    }

    /// The terrain entity of `pos`, when it is loaded.
    pub fn terrain_entity(&self, pos: ChunkSectionPos) -> (r: Option<u64>)
        requires
            self.inv(),
        ensures
            r == if self.entities().contains_key(pos) {
                Some(self.entities()[pos])
            } else {
                None::<u64>
            },
    {
        match self.terrain_entities.get(&pos) {
            Some(e) => Some(*e),
            None => None,
        }
    }
}

} // verus!
