use notcraft::vecmap::VecSet;
use notcraft::world::chunk::ChunkSectionPos;
use notcraft::world::dedup_queue::DedupQueue;
use notcraft::world::loader::{
    emit_load_events, generate_world, process_load_events, recheck_loaded_chunk_sections,
    recheck_loaded_chunks, remove_loader, update_loader, ChunkLoaderContext, LoadEvent, LoadQueue,
    WorldAction,
};
use notcraft::world::persistence::{update_persistence, RegionPos, WorldPersistence};
use notcraft::world::{ChunkLoadEvent, ChunkPos, DynamicChunkLoader, Handleable, LoadEvents};

fn chunk(x: i32, z: i32) -> ChunkPos {
    ChunkPos { x, z }
}

#[test]
fn dedup_queue_keeps_each_element_once() {
    let mut q = DedupQueue::new();
    assert!(q.push_back(1u32));
    assert!(q.push_back(2u32));
    assert!(!q.push_back(1u32));
    assert!(q.push_back(3u32));
    assert_eq!(q.remove(&2), Some(2));
    assert_eq!(q.remove(&2), None);
    assert_eq!(q.pop_front(), Some(1));
    assert!(q.push_back(1u32));
    assert_eq!(q.pop_iter(), vec![3, 1]);
    assert_eq!(q.pop_front(), None);
}

#[test]
fn requests_are_sorted_into_queues() {
    let mut loaded = VecSet::new();
    loaded.insert(chunk(0, 0));
    let mut loaded_sections = VecSet::new();
    loaded_sections.insert(ChunkSectionPos { x: 0, y: 1, z: 0 });

    let mut queue = LoadQueue::new();
    queue.load(chunk(1, 0));
    queue.load(chunk(0, 0)); // already loaded: not queued
    queue.load(chunk(1, 0)); // already queued: kept once
    queue.unload(chunk(0, 0));
    queue.unload(chunk(5, 5)); // not loaded: nothing to unload
    queue.load_section(ChunkSectionPos { x: 0, y: 2, z: 0 });
    queue.unload_section(ChunkSectionPos { x: 0, y: 1, z: 0 });
    queue.load_section(ChunkSectionPos { x: 0, y: 1, z: 0 }); // cancels the unload
    process_load_events(&loaded, &loaded_sections, &mut queue);
    assert!(queue.events.is_empty());
    assert_eq!(queue.load.pop_iter(), vec![chunk(1, 0)]);
    assert_eq!(queue.unload.pop_iter(), vec![chunk(0, 0)]);
    assert_eq!(queue.load_sections.pop_iter(), vec![ChunkSectionPos { x: 0, y: 2, z: 0 }]);
    assert_eq!(queue.unload_sections.pop_iter(), vec![]);
}

#[test]
fn an_unload_request_cancels_a_queued_load() {
    let loaded = VecSet::new();
    let loaded_sections = VecSet::new();
    let mut queue = LoadQueue::new();
    queue.load(chunk(3, 3));
    queue.unload(chunk(3, 3));
    process_load_events(&loaded, &loaded_sections, &mut queue);
    assert_eq!(queue.load.pop_iter(), vec![]);
    assert_eq!(queue.unload.pop_iter(), vec![]);
    assert_eq!(LoadEvent::Load(chunk(1, 2)), LoadEvent::Load(chunk(1, 2)));
}

#[test]
fn a_loader_requests_the_chunks_around_it_in_order() {
    let mut ctx = ChunkLoaderContext::new();
    let mut queue = LoadQueue::new();
    let loader = DynamicChunkLoader { load_radius: 1, unload_radius: 2 };
    update_loader(&mut ctx, &mut queue, 42, &loader, ChunkSectionPos { x: 10, y: 0, z: -3 });
    let mut expected = vec![];
    for x in 9..=11 {
        for z in -4..=-2 {
            expected.push(LoadEvent::Load(chunk(x, z)));
        }
    }
    assert_eq!(queue.events, expected);
    assert!(ctx.loaded_chunk_set.contains(&chunk(11, -2)));
    assert!(!ctx.loaded_chunk_set.contains(&chunk(12, -2)));

    // moving within the same column changes nothing
    queue.events.clear();
    update_loader(&mut ctx, &mut queue, 42, &loader, ChunkSectionPos { x: 10, y: 5, z: -3 });
    assert!(queue.events.is_empty());

    // moving two columns along x keeps what is within the unload radius
    queue.events.clear();
    update_loader(&mut ctx, &mut queue, 42, &loader, ChunkSectionPos { x: 12, y: 0, z: -3 });
    let mut expected = vec![];
    for z in -4..=-2 {
        expected.push(LoadEvent::Load(chunk(12, z)));
    }
    for z in -4..=-2 {
        expected.push(LoadEvent::Load(chunk(13, z)));
    }
    // the row at x = 9 is beyond the unload radius
    for z in -4..=-2 {
        expected.push(LoadEvent::Unload(chunk(9, z)));
    }
    assert_eq!(queue.events, expected);
    assert!(ctx.loaded_chunk_set.contains(&chunk(10, -3)));

    // moving far away releases everything
    queue.events.clear();
    update_loader(&mut ctx, &mut queue, 42, &loader, ChunkSectionPos { x: 100, y: 0, z: 100 });
    let unloads = queue.events.iter().filter(|e| matches!(e, LoadEvent::Unload(_))).count();
    let loads = queue.events.iter().filter(|e| matches!(e, LoadEvent::Load(_))).count();
    assert_eq!(unloads, 12);
    assert_eq!(loads, 9);
    assert!(!ctx.loaded_chunk_set.contains(&chunk(10, -3)));

    // the loader leaves: its chunks are released
    queue.events.clear();
    remove_loader(&mut ctx, &mut queue, 42);
    assert_eq!(queue.events.len(), 9);
    assert!(queue.events.iter().all(|e| matches!(e, LoadEvent::Unload(_))));
    recheck_loaded_chunks(&mut ctx, &mut queue);
    assert_eq!(queue.events.len(), 9);
}

#[test]
fn waiting_sections_are_requested_when_their_chunk_loads() {
    let mut ctx = ChunkLoaderContext::new();
    let mut queue = LoadQueue::new();
    let loader = DynamicChunkLoader { load_radius: 1, unload_radius: 1 };
    update_loader(&mut ctx, &mut queue, 1, &loader, ChunkSectionPos { x: 0, y: 4, z: 0 });
    queue.events.clear();
    recheck_loaded_chunk_sections(&mut ctx, &mut queue, chunk(0, 0));
    let mut ys: Vec<i32> = queue
        .events
        .iter()
        .map(|e| match e {
            LoadEvent::LoadSection(p) => {
                assert_eq!((p.x, p.z), (0, 0));
                p.y
            }
            other => panic!("unexpected {:?}", other),
        })
        .collect();
    ys.sort();
    assert_eq!(ys, vec![3, 4, 5]);
    // nothing waits any more
    queue.events.clear();
    recheck_loaded_chunk_sections(&mut ctx, &mut queue, chunk(0, 0));
    assert!(queue.events.is_empty());
}

#[test]
fn an_event_is_handled_once() {
    let mut event = Handleable::new(ChunkLoadEvent(chunk(1, 1)));
    assert_eq!(event.handle(), Some(ChunkLoadEvent(chunk(1, 1))));
    assert_eq!(event.handle(), None);
    assert_eq!(event.handle(), None);
}

#[test]
fn persistence_does_nothing_yet() {
    let mut persistence = WorldPersistence::new();
    let events = LoadEvents { chunk_load: vec![], chunk_unload: vec![], section_load: vec![], section_unload: vec![] };
    update_persistence(&mut persistence, &events);
    let region = RegionPos { x: 1, z: -1 };
    assert_eq!(region, RegionPos { x: 1, z: -1 });
}

fn section(x: i32, y: i32, z: i32) -> ChunkSectionPos {
    ChunkSectionPos { x, y, z }
}

#[test]
fn a_frame_loads_one_chunk_and_eight_sections() {
    let mut loaded = VecSet::new();
    loaded.insert(chunk(0, 0));
    loaded.insert(chunk(9, 9));
    let loaded_sections = VecSet::new();
    let mut queue = LoadQueue::new();
    queue.load(chunk(1, 0));
    queue.load(chunk(2, 0));
    for y in 0..10 {
        queue.load_section(section(0, y, 0));
    }
    queue.unload(chunk(9, 9));
    let batch = emit_load_events(&loaded, &loaded_sections, &mut queue);
    assert_eq!(batch.load, vec![chunk(1, 0)]);
    assert_eq!(batch.load_sections, (0..8).map(|y| section(0, y, 0)).collect::<Vec<_>>());
    assert_eq!(batch.unload, vec![chunk(9, 9)]);
    assert_eq!(batch.unload_sections, vec![]);
    // the rest waits for the next frames
    let batch = emit_load_events(&loaded, &loaded_sections, &mut queue);
    assert_eq!(batch.load, vec![chunk(2, 0)]);
    assert_eq!(batch.load_sections, vec![section(0, 8, 0), section(0, 9, 0)]);
    assert_eq!(batch.unload, vec![]);
    let batch = emit_load_events(&loaded, &loaded_sections, &mut queue);
    assert!(batch.load.is_empty() && batch.load_sections.is_empty());
}

#[test]
fn generation_follows_the_requests_and_the_finished_work() {
    let mut loaded = VecSet::new();
    loaded.insert(chunk(0, 0));
    let mut loaded_sections = VecSet::new();
    let mut queue = LoadQueue::new();
    let actions = generate_world(
        &mut loaded,
        &mut loaded_sections,
        &mut queue,
        &[chunk(1, 0)],
        &[(section(0, 1, 0), false), (section(0, 2, 0), true), (section(4, 0, 4), false)],
        &[chunk(3, 3)],
        &[section(3, 0, 3), section(7, 0, 7)],
    );
    assert_eq!(
        actions,
        vec![
            WorldAction::GenerateChunk(chunk(1, 0)),
            WorldAction::GenerateSection(section(0, 1, 0)),
            WorldAction::LoadCachedSection(section(0, 2, 0)),
            WorldAction::SkipSection(section(4, 0, 4)),
            WorldAction::ChunkLoaded(chunk(3, 3)),
            // a generated section of a chunk that is not loaded is dropped
            WorldAction::SectionLoaded(section(3, 0, 3)),
            WorldAction::SectionLoaded(section(0, 2, 0)),
        ]
    );
    assert!(loaded.contains(&chunk(3, 3)));
    assert!(loaded_sections.contains(&section(0, 2, 0)));
    assert!(loaded_sections.contains(&section(3, 0, 3)));
    assert!(!loaded_sections.contains(&section(7, 0, 7)));
}
