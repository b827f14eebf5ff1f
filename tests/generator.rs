use id_pool::{ConfigError, GeneratorBuilder, Id};
use std::collections::HashSet;

#[test]
fn allocate_ids_no_duplicates() {
    let mut already_allocated = HashSet::<usize>::new();

    let size = 1000;

    let mut generator = GeneratorBuilder::new().with_size(size).build();

    let mut references = Vec::with_capacity(size);

    for _ in 0..size {
        let val = generator.generate().unwrap();
        assert!(already_allocated.get(&val.value()).is_some() == false);
        already_allocated.insert(val.value());
        references.push(val);
    }
}

#[test]
fn returning_ids_will_allow_them_to_be_reallocated() {
    let mut already_allocated = HashSet::<usize>::new();

    let size = 1000;

    let mut generator = GeneratorBuilder::new().with_size(size).build();

    let mut references = Vec::with_capacity(size);

    for _ in 0..size {
        let val = generator.generate().unwrap();
        assert!(already_allocated.get(&val.value()).is_some() == false);
        already_allocated.insert(val.value());
        references.push(val);
    }

    drop(references);

    let mut references = Vec::with_capacity(size);

    for _ in 0..size {
        let val = generator.generate().unwrap();
        assert!(already_allocated.get(&val.value()).is_some());
        references.push(val);
    }
}

#[test]
fn dont_return_ownership_if_live_reference() {
    let mut already_allocated = HashSet::<usize>::new();

    let size = 1000;

    let mut generator = GeneratorBuilder::new().with_size(size).build();

    let mut references = Vec::with_capacity(size);

    for _ in 0..size {
        let val = generator.generate().unwrap();
        assert!(already_allocated.get(&val.value()).is_some() == false);
        already_allocated.insert(val.value());
        references.push(val);
    }

    let more_references = references.clone();

    drop(references);

    let mut references = Vec::with_capacity(size);

    for _ in 0..size {
        let val = generator.generate().unwrap();
        assert!(already_allocated.get(&val.value()).is_some() == false);
        already_allocated.insert(val.value());
        references.push(val);
    }

    drop(more_references);
    drop(references);

    let mut references = Vec::with_capacity(size);

    for _ in 0..size {
        let val = generator.generate().unwrap();
        assert!(already_allocated.get(&val.value()).is_some());
        references.push(val);
    }
}

fn values_of(ids: &[Id]) -> HashSet<usize> {
    ids.iter().map(|id| id.value()).collect()
}

#[test]
fn small_pool_hands_out_and_reuses_its_slots() {
    let mut generator = GeneratorBuilder::new().with_size(3).build();
    let first: Vec<Id> = (0..3).map(|_| generator.generate().unwrap()).collect();
    assert_eq!(values_of(&first), HashSet::from([0, 1, 2]));
    drop(first);
    let second: Vec<Id> = (0..3).map(|_| generator.generate().unwrap()).collect();
    assert_eq!(values_of(&second), HashSet::from([0, 1, 2]));
    let fourth = generator.generate().unwrap();
    assert_eq!(fourth.value(), 3 + 128 - 1);
}

#[test]
fn fresh_pool_hands_out_highest_slot_first() {
    let mut generator = GeneratorBuilder::new().with_size(3).build();
    let a = generator.generate().unwrap();
    let b = generator.generate().unwrap();
    let c = generator.generate().unwrap();
    assert_eq!((a.value(), b.value(), c.value()), (2, 1, 0));
}

#[test]
fn growth_returns_last_new_slot_then_the_staged_ones() {
    let mut generator = GeneratorBuilder::new()
        .with_size(4)
        .with_chunk_size(5)
        .unwrap()
        .build();
    let mut held: Vec<Id> = (0..4).map(|_| generator.generate().unwrap()).collect();
    let grown = generator.generate().unwrap();
    assert_eq!(grown.value(), 8);
    let staged: Vec<Id> = (0..4).map(|_| generator.generate().unwrap()).collect();
    assert_eq!(values_of(&staged), HashSet::from([4, 5, 6, 7]));
    let again = generator.generate().unwrap();
    assert_eq!(again.value(), 13);
    held.push(grown);
}

#[test]
fn empty_pool_grows_on_first_call() {
    let mut generator = GeneratorBuilder::new()
        .with_size(0)
        .with_chunk_size(1)
        .unwrap()
        .build();
    let a = generator.generate().unwrap();
    let b = generator.generate().unwrap();
    assert_eq!((a.value(), b.value()), (0, 1));
}

#[test]
fn zero_chunk_size_is_refused() {
    let r = GeneratorBuilder::new().with_chunk_size(0);
    assert!(matches!(r, Err(ConfigError::ZeroChunkSize)));
}

#[test]
fn clone_keeps_slot_until_last_handle_goes() {
    let mut generator = GeneratorBuilder::new()
        .with_size(1)
        .with_chunk_size(2)
        .unwrap()
        .build();
    let original = generator.generate().unwrap();
    assert_eq!(original.value(), 0);
    let copy = original.clone();
    assert!(copy == original);
    drop(original);
    let next = generator.generate().unwrap();
    assert_ne!(next.value(), 0);
    drop(copy);
    let reused = generator.generate().unwrap();
    assert_eq!(reused.value(), 0);
    drop(next);
}

#[test]
fn released_slot_is_reused_first() {
    let mut generator = GeneratorBuilder::new().with_size(10).build();
    let ids: Vec<Id> = (0..10).map(|_| generator.generate().unwrap()).collect();
    let picked = ids[4].value();
    let mut ids = ids;
    ids.remove(4);
    let again = generator.generate().unwrap();
    assert_eq!(again.value(), picked);
}

#[test]
fn handles_equal_and_hash_by_value() {
    let mut generator = GeneratorBuilder::new().with_size(2).build();
    let a = generator.generate().unwrap();
    let b = generator.generate().unwrap();
    assert!(a != b);
    let mut set = HashSet::new();
    set.insert(a.clone());
    assert!(set.contains(&a));
    assert!(!set.contains(&b));
}

#[test]
fn handles_outlive_their_generator() {
    let mut generator = GeneratorBuilder::new().with_size(2).build();
    let a = generator.generate().unwrap();
    assert_eq!(generator.allocated(), 2);
    drop(generator);
    assert_eq!(a.value(), 1);
    drop(a);
}

#[test]
fn default_builder_uses_documented_sizes() {
    let mut generator = GeneratorBuilder::default().build();
    let held: Vec<Id> = (0..128).map(|_| generator.generate().unwrap()).collect();
    assert_eq!(values_of(&held), (0..128).collect::<HashSet<usize>>());
    let grown = generator.generate().unwrap();
    assert_eq!(grown.value(), 128 + 128 - 1);
}

fn movable_across_threads<T: Send>() {}

fn shareable_across_threads<T: Send + Sync>() {}

#[test]
fn generator_and_handles_can_cross_threads() {
    movable_across_threads::<id_pool::Generator>();
    shareable_across_threads::<Id>();
}

#[test]
fn handle_text_shows_its_slot() {
    let mut generator = GeneratorBuilder::new().with_size(13).build();
    let id = generator.generate().unwrap();
    assert_eq!(id.to_debug_string(), "Id(12)");
    let rest: Vec<Id> = (0..12).map(|_| generator.generate().unwrap()).collect();
    assert_eq!(rest[11].to_debug_string(), "Id(0)");
}

#[test]
fn growth_counts_are_visible_on_the_generator() {
    let mut generator = GeneratorBuilder::new()
        .with_size(3)
        .with_chunk_size(4)
        .unwrap()
        .build();
    assert_eq!(generator.chunk_size(), 4);
    assert_eq!(generator.allocated(), 3);
    let held: Vec<Id> = (0..4).map(|_| generator.generate().unwrap()).collect();
    assert_eq!(held[3].value(), 6);
    assert_eq!(generator.allocated(), 7);
    let copy = held[0].clone();
    assert_eq!(copy.value(), held[0].value());
}
