//! Debug events: kinds of events, each with a name by which it can be
//! switched on.
use crate::mesher::MesherEvent;
use crate::world::chunk::ChunkSectionPos;
use crate::world::{ChunkPos, WorldAccessEvent, WorldLoadEvent};
use vstd::prelude::*;

verus! {

/// A kind of debug event, with the name it is switched on by.
pub trait DebugEvent {
    /// The name of the kind.
    spec fn spec_name() -> Seq<char>;

    fn name() -> (r: &'static str)
        ensures
            r@ == Self::spec_name(),
    ;
}

impl DebugEvent for WorldLoadEvent {
    open spec fn spec_name() -> Seq<char> {
        "world-load"@
    }

    fn name() -> (r: &'static str) {
        "world-load"
    }
}

impl DebugEvent for WorldAccessEvent {
    open spec fn spec_name() -> Seq<char> {
        "world-access"@
    }

    fn name() -> (r: &'static str) {
        "world-access"
    }
}

impl DebugEvent for MesherEvent {
    open spec fn spec_name() -> Seq<char> {
        "mesher"@
    }

    fn name() -> (r: &'static str) {
        "mesher"
    }
}

fn contains_name(names: &Vec<String>, name: &String) -> (r: bool)
    ensures
        r <==> exists|i: int| 0 <= i < names@.len() && #[trigger] names@[i]@ == name@,
{
    let mut i: usize = 0;
    while i < names.len()
        invariant
            i <= names@.len(),
            forall|j: int| 0 <= j < i ==> names@[j]@ != name@,
        decreases names@.len() - i,
    {
        if names[i] == *name {
            assert(names@[i as int]@ == name@);
            return true;
        }
        i += 1;
    }
    false
}

/// Every kind when no names are given, otherwise the kinds named.
pub open spec fn debug_event_enabled_spec<E: DebugEvent>(enabled: Option<&Vec<String>>) -> bool {
    match enabled {
        None => true,
        Some(names) => exists|i: int| 0 <= i < names@.len() && #[trigger] names@[i]@ == E::spec_name(),
    }
}

/// Whether a kind of debug event is switched on: every kind when no names
/// are given, otherwise the kinds named.
pub fn debug_event_enabled<E: DebugEvent>(enabled: Option<&Vec<String>>) -> (r: bool)
    ensures
        r == debug_event_enabled_spec::<E>(enabled),
{
    let name = E::name().to_owned();
    match enabled {
        None => true,
        Some(names) => contains_name(names, &name),
    }
}

/// The queue of one kind of debug event: absent while the kind is switched
/// off, else the events sent and not yet taken, oldest first.
pub struct DebugChannel<E> {
    queue: Option<Vec<E>>,
}

impl<E> View for DebugChannel<E> {
    type V = Option<Seq<E>>;

    closed spec fn view(&self) -> Option<Seq<E>> {
        match self.queue {
            Some(q) => Some(q@),
            None => None,
        }
    }
}

impl<E> DebugChannel<E> {
    /// A channel of a kind that is switched off.
    pub fn new() -> (r: Self)
        ensures
            r@ == None::<Seq<E>>,
    {
        DebugChannel { queue: None }
    }
}

/// Switches a kind of debug event on or off. Switching on keeps the events
/// already queued; switching off drops them.
pub fn enable_debug_event<E: DebugEvent>(channel: &mut DebugChannel<E>, enable: bool)
    ensures
        final(channel)@ == if !enable {
            None
        } else if old(channel)@ is Some {
            old(channel)@
        } else {
            Some(Seq::<E>::empty())
        },
{
    if enable {
        if channel.queue.is_none() {
            channel.queue = Some(Vec::new());
        }
    } else {
        channel.queue = None;
    }
}

/// Switches a kind of debug event on when it is among the names given, or
/// when no names are given, and off otherwise.
pub fn register_debug_event<E: DebugEvent>(channel: &mut DebugChannel<E>, enabled: Option<&Vec<String>>)
    ensures
        final(channel)@ == if !debug_event_enabled_spec::<E>(enabled) {
            None
        } else if old(channel)@ is Some {
            old(channel)@
        } else {
            Some(Seq::<E>::empty())
        },
{
    let enable = debug_event_enabled::<E>(enabled);
    enable_debug_event(channel, enable);
}

/// Queues an event when its kind is switched on; otherwise drops it.
pub fn send_debug_event<E: DebugEvent>(channel: &mut DebugChannel<E>, event: E)
    ensures
        final(channel)@ == match old(channel)@ {
            Some(q) => Some(q.push(event)),
            None => None,
        },
{
    match &mut channel.queue {
        Some(q) => q.push(event),
        None => {},
    }
}

/// Takes the queued events, oldest first; none when the kind is switched
/// off. The kind stays switched on or off.
pub fn drain_debug_events<E: DebugEvent>(channel: &mut DebugChannel<E>) -> (r: Vec<E>)
    ensures
        r@ == match old(channel)@ {
            Some(q) => q,
            None => Seq::empty(),
        },
        final(channel)@ == match old(channel)@ {
            Some(_) => Some(Seq::<E>::empty()),
            None => None,
        },
{
    match channel.queue.take() {
        Some(q) => {
            channel.queue = Some(Vec::new());
            q
        },
        None => Vec::new(),
    }
}

/// Drops the queued events of a kind, which stays switched on or off.
pub fn clear_debug_events<E: DebugEvent>(channel: &mut DebugChannel<E>)
    ensures
        final(channel)@ == match old(channel)@ {
            Some(_) => Some(Seq::<E>::empty()),
            None => None,
        },
{
    if channel.queue.is_some() {
        channel.queue = Some(Vec::new());
    }
}

/// How a debug box is drawn: which event it shows.
#[derive(Copy, Clone, Debug, PartialEq, Eq)]
pub enum DebugBoxStyle {
    Loaded,
    Unloaded,
    Modified,
    Read,
    Written,
    Orphaned,
    MeshedCheap,
    Meshed,
    MeshFailed,
}

/// What a debug box surrounds: a whole chunk or one section.
#[derive(Copy, Clone, Debug, PartialEq)]
pub enum DebugRegion {
    Chunk(ChunkPos),
    Section(ChunkSectionPos),
}

/// A debug box to draw: for `lifetime_ms` milliseconds, or for one frame
/// when it has none.
#[derive(Copy, Clone, Debug, PartialEq)]
pub struct DebugBoxRequest {
    pub region: DebugRegion,
    pub style: DebugBoxStyle,
    pub lifetime_ms: Option<u32>,
}

/// The box that shows a chunk loading event: a second for loading and
/// unloading, half a second for a change.
pub open spec fn load_event_box(e: WorldLoadEvent) -> DebugBoxRequest {
    match e {
        WorldLoadEvent::Loaded(p) => DebugBoxRequest { region: DebugRegion::Chunk(p), style: DebugBoxStyle::Loaded, lifetime_ms: Some(1000) },
        WorldLoadEvent::Unloaded(p) => DebugBoxRequest { region: DebugRegion::Chunk(p), style: DebugBoxStyle::Unloaded, lifetime_ms: Some(1000) },
        WorldLoadEvent::Modified(p) => DebugBoxRequest { region: DebugRegion::Chunk(p), style: DebugBoxStyle::Modified, lifetime_ms: Some(500) },
        WorldLoadEvent::LoadedSection(p) => DebugBoxRequest { region: DebugRegion::Section(p), style: DebugBoxStyle::Loaded, lifetime_ms: Some(1000) },
        WorldLoadEvent::UnloadedSection(p) => DebugBoxRequest { region: DebugRegion::Section(p), style: DebugBoxStyle::Unloaded, lifetime_ms: Some(1000) },
        WorldLoadEvent::ModifiedSection(p) => DebugBoxRequest { region: DebugRegion::Section(p), style: DebugBoxStyle::Modified, lifetime_ms: Some(500) },
    }
}

/// The box that shows a section access: reads and writes for one frame,
/// an orphaned section for two seconds.
pub open spec fn access_event_box(e: WorldAccessEvent) -> DebugBoxRequest {
    match e {
        WorldAccessEvent::Read(p) => DebugBoxRequest { region: DebugRegion::Section(p), style: DebugBoxStyle::Read, lifetime_ms: None },
        WorldAccessEvent::Written(p) => DebugBoxRequest { region: DebugRegion::Section(p), style: DebugBoxStyle::Written, lifetime_ms: None },
        WorldAccessEvent::Orphaned(p) => DebugBoxRequest { region: DebugRegion::Section(p), style: DebugBoxStyle::Orphaned, lifetime_ms: Some(2000) },
    }
}

/// The box that shows a meshing result: a second for a mesh, two seconds
/// for a failure.
pub open spec fn mesher_event_box(e: MesherEvent) -> DebugBoxRequest {
    match e {
        MesherEvent::Meshed { cheap, pos } => DebugBoxRequest {
            region: DebugRegion::Section(pos),
            style: if cheap { DebugBoxStyle::MeshedCheap } else { DebugBoxStyle::Meshed },
            lifetime_ms: Some(1000),
        },
        MesherEvent::MeshFailed(pos) => DebugBoxRequest { region: DebugRegion::Section(pos), style: DebugBoxStyle::MeshFailed, lifetime_ms: Some(2000) },
    }
}

/// The events waiting in a channel view, none when it is switched off.
pub open spec fn pending<E>(v: Option<Seq<E>>) -> Seq<E> {
    match v {
        Some(q) => q,
        None => Seq::empty(),
    }
}

/// The channel view after its events are taken.
pub open spec fn drained<E>(v: Option<Seq<E>>) -> Option<Seq<E>> {
    match v {
        Some(_) => Some(Seq::empty()),
        None => None,
    }
}

fn load_box(e: WorldLoadEvent) -> (r: DebugBoxRequest)
    ensures
        r == load_event_box(e),
{
    match e {
        WorldLoadEvent::Loaded(p) => DebugBoxRequest { region: DebugRegion::Chunk(p), style: DebugBoxStyle::Loaded, lifetime_ms: Some(1000) },
        WorldLoadEvent::Unloaded(p) => DebugBoxRequest { region: DebugRegion::Chunk(p), style: DebugBoxStyle::Unloaded, lifetime_ms: Some(1000) },
        WorldLoadEvent::Modified(p) => DebugBoxRequest { region: DebugRegion::Chunk(p), style: DebugBoxStyle::Modified, lifetime_ms: Some(500) },
        WorldLoadEvent::LoadedSection(p) => DebugBoxRequest { region: DebugRegion::Section(p), style: DebugBoxStyle::Loaded, lifetime_ms: Some(1000) },
        WorldLoadEvent::UnloadedSection(p) => DebugBoxRequest { region: DebugRegion::Section(p), style: DebugBoxStyle::Unloaded, lifetime_ms: Some(1000) },
        WorldLoadEvent::ModifiedSection(p) => DebugBoxRequest { region: DebugRegion::Section(p), style: DebugBoxStyle::Modified, lifetime_ms: Some(500) },
    }
}

fn access_box(e: WorldAccessEvent) -> (r: DebugBoxRequest)
    ensures
        r == access_event_box(e),
{
    match e {
        WorldAccessEvent::Read(p) => DebugBoxRequest { region: DebugRegion::Section(p), style: DebugBoxStyle::Read, lifetime_ms: None },
        WorldAccessEvent::Written(p) => DebugBoxRequest { region: DebugRegion::Section(p), style: DebugBoxStyle::Written, lifetime_ms: None },
        WorldAccessEvent::Orphaned(p) => DebugBoxRequest { region: DebugRegion::Section(p), style: DebugBoxStyle::Orphaned, lifetime_ms: Some(2000) },
    }
}

fn mesher_box(e: MesherEvent) -> (r: DebugBoxRequest)
    ensures
        r == mesher_event_box(e),
{
    match e {
        MesherEvent::Meshed { cheap, pos } => DebugBoxRequest {
            region: DebugRegion::Section(pos),
            style: if cheap { DebugBoxStyle::MeshedCheap } else { DebugBoxStyle::Meshed },
            lifetime_ms: Some(1000),
        },
        MesherEvent::MeshFailed(pos) => DebugBoxRequest { region: DebugRegion::Section(pos), style: DebugBoxStyle::MeshFailed, lifetime_ms: Some(2000) },
    }
}

/// Takes the pending debug events of the three kinds and gives the boxes
/// that show them: chunk loading first, then section accesses, then
/// meshing, each kind oldest first. The channels end drained.
pub fn debug_event_handler(
    load: &mut DebugChannel<WorldLoadEvent>,
    access: &mut DebugChannel<WorldAccessEvent>,
    mesher: &mut DebugChannel<MesherEvent>,
) -> (r: Vec<DebugBoxRequest>)
    ensures
        r@ == pending(old(load)@).map_values(|e: WorldLoadEvent| load_event_box(e))
            + pending(old(access)@).map_values(|e: WorldAccessEvent| access_event_box(e))
            + pending(old(mesher)@).map_values(|e: MesherEvent| mesher_event_box(e)),
        final(load)@ == drained(old(load)@),
        final(access)@ == drained(old(access)@),
        final(mesher)@ == drained(old(mesher)@),
{
    let loads = drain_debug_events(load);
    let accesses = drain_debug_events(access);
    let meshes = drain_debug_events(mesher);
    let ghost a = loads@.map_values(|e: WorldLoadEvent| load_event_box(e));
    let ghost b = accesses@.map_values(|e: WorldAccessEvent| access_event_box(e));
    let ghost c = meshes@.map_values(|e: MesherEvent| mesher_event_box(e));
    let mut r: Vec<DebugBoxRequest> = Vec::new();
    let mut i: usize = 0;
    while i < loads.len()
        invariant
            i <= loads@.len(),
            a == loads@.map_values(|e: WorldLoadEvent| load_event_box(e)),
            r@ == a.take(i as int),
        decreases loads@.len() - i,
    {
        r.push(load_box(loads[i]));
        assert(a.take(i + 1) =~= a.take(i as int).push(a[i as int]));
        i += 1;
    }
    assert(a.take(i as int) =~= a);
    let mut i: usize = 0;
    while i < accesses.len()
        invariant
            i <= accesses@.len(),
            b == accesses@.map_values(|e: WorldAccessEvent| access_event_box(e)),
            r@ == a + b.take(i as int),
        decreases accesses@.len() - i,
    {
        r.push(access_box(accesses[i]));
        assert(b.take(i + 1) =~= b.take(i as int).push(b[i as int]));
        i += 1;
    }
    assert(b.take(i as int) =~= b);
    let mut i: usize = 0;
    while i < meshes.len()
        invariant
            i <= meshes@.len(),
            c == meshes@.map_values(|e: MesherEvent| mesher_event_box(e)),
            r@ == a + b + c.take(i as int),
        decreases meshes@.len() - i,
    {
        r.push(mesher_box(meshes[i]));
        assert(c.take(i + 1) =~= c.take(i as int).push(c[i as int]));
        i += 1;
    }
    assert(c.take(i as int) =~= c);
    r
}

} // verus!
