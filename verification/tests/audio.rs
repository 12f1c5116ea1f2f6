use notcraft::audio::{AudioEntry, AudioId, AudioState, RandomizedAudioPools, WeightedList};
use notcraft::random::rng_from_entropy;

#[test]
fn weighted_list_picks_by_range() {
    let mut list = WeightedList::new();
    list.push(2, 'a');
    list.push(0, 'z');
    list.push(3, 'b');
    // 'a' covers 0..2, 'z' nothing, 'b' 2..5
    assert_eq!(list.select_with(0), Some(&'a'));
    assert_eq!(list.select_with(1), Some(&'a'));
    assert_eq!(list.select_with(2), Some(&'b'));
    assert_eq!(list.select_with(4), Some(&'b'));
    let empty: WeightedList<u8> = WeightedList::default();
    assert_eq!(empty.select_with(0), None);
}

#[test]
fn weighted_list_draws_an_item_with_weight() {
    let mut rng = rng_from_entropy();
    let mut list = WeightedList::new();
    list.push(0, 1u8);
    list.push(5, 2u8);
    list.push(0, 3u8);
    for _ in 0..50 {
        assert_eq!(list.select(&mut rng), Some(&2u8));
    }
    let empty: WeightedList<u8> = WeightedList::new();
    assert_eq!(empty.select(&mut rng), None);
}

#[test]
fn audio_clips_are_numbered_in_order() {
    let mut state = AudioState::new();
    let a = state.add(vec![1, 2, 3]);
    let b = state.add(vec![]);
    let c = state.add(vec![9]);
    assert_eq!(a, AudioId(0));
    assert_eq!(b, AudioId(1));
    assert_eq!(c, AudioId(2));
    assert_eq!(state.get(a), &[1, 2, 3]);
    assert_eq!(state.get(b), &[] as &[u8]);
    assert_eq!(state.get(c), &[9]);
}

#[test]
fn sounds_draw_from_their_pools() {
    let mut state = AudioState::new();
    let mut pools = RandomizedAudioPools::new();
    state.add(vec![0]);
    pools.add_pool(&mut state, "grass".to_string(), vec![(1, vec![vec![1], vec![2]]), (3, vec![vec![3]])]);
    pools.add_pool(&mut state, "stone".to_string(), vec![(1, vec![vec![4]])]);
    let unknown = pools.add_sound(
        "step".to_string(),
        vec![
            AudioEntry { pools: vec!["grass".to_string(), "sand".to_string()], weight: 2 },
            AudioEntry { pools: vec!["stone".to_string()], weight: 1 },
        ]
        .as_slice(),
    );
    assert_eq!(unknown, vec!["sand".to_string()]);
    assert_eq!(state.get(AudioId(1)), &[1]);
    assert_eq!(state.get(AudioId(3)), &[3]);
    assert_eq!(state.get(AudioId(4)), &[4]);

    let step = pools.id("step").unwrap();
    assert!(pools.id("jump").is_none());
    // the sound: grass covers 0..2, stone 2..3; grass: 1 at 0, 2 at 1, 3 at 2..5
    assert_eq!(pools.select_with(step, 0, 0), Some(AudioId(1)));
    assert_eq!(pools.select_with(step, 1, 1), Some(AudioId(2)));
    assert_eq!(pools.select_with(step, 1, 4), Some(AudioId(3)));
    assert_eq!(pools.select_with(step, 2, 0), Some(AudioId(4)));

    let mut rng = rng_from_entropy();
    for _ in 0..50 {
        let clip = pools.select(&mut rng, step).unwrap();
        assert!((1..=4).contains(&clip.0));
    }
}

#[test]
fn a_sound_without_pools_plays_nothing() {
    let mut pools = RandomizedAudioPools::new();
    let unknown = pools.add_sound("silence".to_string(), &[AudioEntry { pools: vec!["none".to_string()], weight: 1 }]);
    assert_eq!(unknown.len(), 1);
    let id = pools.id("silence").unwrap();
    let mut rng = rng_from_entropy();
    assert_eq!(pools.select(&mut rng, id), None);
    assert_eq!(pools.select_with(id, 0, 0), None);
}
