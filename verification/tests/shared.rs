use bookcase::{GrowthStrategy, Notebook, Pen, PublicMultiNotebook, SizeStrategy, StdAllocator};
use std::collections::HashMap;
use std::collections::HashSet;

#[test]
fn users_taking_turns_get_slots_of_their_own() {
    const USERS: u64 = 4;
    const EACH: usize = 50;
    let mut book = PublicMultiNotebook::<StdAllocator, Pen>::new(
        StdAllocator,
        SizeStrategy::WordsPerPage(16),
        GrowthStrategy::Exponential,
    );
    let mut slots: Vec<Vec<usize>> = vec![vec![]; USERS as usize];
    let mut turn = 0u64;
    while slots.iter().any(|mine| mine.len() < EACH) {
        let id = (turn * turn + turn / 3) % USERS;
        turn += 1;
        if slots[id as usize].len() < EACH {
            let slot = book.alloc_init::<u64>(&id.to_ne_bytes()).expect("a slot");
            slots[id as usize].push(slot);
        }
    }
    let mut all = HashSet::new();
    let mut counts: HashMap<u64, usize> = HashMap::new();
    let mut total = 0;
    for mine in slots {
        for slot in mine {
            total += 1;
            assert!(all.insert(slot));
            let image = book.read::<u64>(slot).expect("the slot");
            let mut word = [0u8; 8];
            word.copy_from_slice(&image);
            *counts.entry(u64::from_ne_bytes(word)).or_insert(0) += 1;
        }
    }
    assert_eq!(total, USERS as usize * EACH);
    assert_eq!(counts.len(), USERS as usize);
    for id in 0..USERS {
        assert_eq!(counts[&id], EACH);
    }
}

#[test]
fn slots_do_not_repeat() {
    let mut book = PublicMultiNotebook::<StdAllocator, Pen>::new(
        StdAllocator,
        SizeStrategy::WordsPerPage(2),
        GrowthStrategy::Linear(1),
    );
    let mut seen = HashSet::new();
    for round in 0..200usize {
        let slot = match round % 3 {
            0 => book.allocate::<u8>(),
            1 => book.allocate::<u32>(),
            _ => book.allocate::<u64>(),
        };
        assert!(seen.insert(slot.expect("a slot")));
        if round % 7 == 0 {
            assert!(book.dealloc::<u8>(slot.unwrap()) || round % 3 != 0);
        }
    }
}
