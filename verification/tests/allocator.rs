use bookcase::{Block, BookcaseAllocator, Error, Layout, StdAllocator};

fn layout(size: usize, align: usize) -> Layout {
    Layout::from_size_align(size, align).expect("a layout")
}

fn fill(block: &mut Block, start: u8) {
    for i in 0..block.size() {
        block.set(i, start.wrapping_add(i as u8));
    }
}

#[test]
fn blocks_have_the_size_and_alignment_asked_for() {
    for align in [1usize, 2, 8, 16, 64, 4096] {
        for size in [1usize, 3, 64, 1000] {
            let block = StdAllocator.allocate(layout(size, align)).expect("a block");
            assert_eq!(block.size(), size);
            assert_eq!(block.addr() % align, 0);
            assert_eq!(block.as_slice().len(), size);
            StdAllocator.deallocate(block, layout(size, align));
        }
    }
}

#[test]
fn a_block_of_no_bytes_lies_at_its_alignment() {
    let block = StdAllocator.allocate(layout(0, 64)).expect("a block");
    assert_eq!(block.addr(), 64);
    assert_eq!(block.size(), 0);
}

#[test]
fn zeroed_blocks_hold_zeros() {
    let block = StdAllocator.allocate_zeroed(layout(48, 16)).expect("a block");
    assert_eq!(block.as_slice(), &[0u8; 48][..]);
}

#[test]
fn bytes_are_read_where_they_were_written() {
    let mut block = StdAllocator.allocate(layout(4, 4)).expect("a block");
    block.set(0, 9);
    block.set(3, 7);
    block.set(0, 1);
    assert_eq!(block.get(0), 1);
    assert_eq!(block.get(3), 7);
    assert_eq!(block.as_slice(), &[1, 0, 0, 7][..]);
}

#[test]
fn growing_keeps_the_bytes() {
    let mut block = StdAllocator.allocate(layout(4, 4)).expect("a block");
    fill(&mut block, 1);
    assert_eq!(StdAllocator.grow(&mut block, layout(4, 4), layout(8, 8)), Ok(()));
    assert_eq!(block.size(), 8);
    assert_eq!(block.addr() % 8, 0);
    assert_eq!(block.as_slice()[0..4], [1, 2, 3, 4]);
}

#[test]
fn growing_to_the_same_size_keeps_the_block() {
    let mut block = StdAllocator.allocate(layout(4, 4)).expect("a block");
    fill(&mut block, 1);
    let addr = block.addr();
    assert_eq!(StdAllocator.grow(&mut block, layout(4, 4), layout(4, 4)), Ok(()));
    assert_eq!(block.addr(), addr);
    assert_eq!(block.as_slice(), &[1, 2, 3, 4][..]);
}

#[test]
fn growing_a_block_of_no_bytes_gives_a_new_one() {
    let mut block = StdAllocator.allocate(layout(0, 8)).expect("a block");
    assert_eq!(StdAllocator.grow(&mut block, layout(0, 8), layout(16, 8)), Ok(()));
    assert_eq!(block.size(), 16);
    assert_eq!(block.addr() % 8, 0);
}

#[test]
fn growing_to_a_smaller_size_is_an_error() {
    let mut block = StdAllocator.allocate(layout(16, 8)).expect("a block");
    fill(&mut block, 1);
    let addr = block.addr();
    assert_eq!(
        StdAllocator.grow(&mut block, layout(16, 8), layout(8, 8)),
        Err(Error::GrowError(16, 8))
    );
    assert_eq!(
        StdAllocator.grow_zeroed(&mut block, layout(16, 8), layout(15, 1)),
        Err(Error::GrowError(16, 15))
    );
    assert_eq!(block.addr(), addr);
    assert_eq!(block.size(), 16);
    assert_eq!(block.get(15), 16);
}

#[test]
fn growing_zeroed_clears_the_new_bytes() {
    let mut block = StdAllocator.allocate(layout(3, 1)).expect("a block");
    fill(&mut block, 0xf0);
    assert_eq!(StdAllocator.grow_zeroed(&mut block, layout(3, 1), layout(6, 2)), Ok(()));
    assert_eq!(block.as_slice(), &[0xf0, 0xf1, 0xf2, 0, 0, 0][..]);
    assert_eq!(block.addr() % 2, 0);
}

#[test]
fn shrinking_keeps_the_bytes_that_fit() {
    let mut block = StdAllocator.allocate(layout(8, 8)).expect("a block");
    fill(&mut block, 1);
    assert_eq!(StdAllocator.shrink(&mut block, layout(8, 8), layout(3, 1)), Ok(()));
    assert_eq!(block.as_slice(), &[1, 2, 3][..]);
}

#[test]
fn shrinking_to_the_same_size_keeps_the_block() {
    let mut block = StdAllocator.allocate(layout(8, 8)).expect("a block");
    fill(&mut block, 1);
    let addr = block.addr();
    assert_eq!(StdAllocator.shrink(&mut block, layout(8, 8), layout(8, 8)), Ok(()));
    assert_eq!(block.addr(), addr);
    assert_eq!(block.as_slice(), &[1, 2, 3, 4, 5, 6, 7, 8][..]);
}

#[test]
fn shrinking_to_a_larger_size_is_an_error() {
    let mut block = StdAllocator.allocate(layout(8, 8)).expect("a block");
    let addr = block.addr();
    assert_eq!(
        StdAllocator.shrink(&mut block, layout(8, 8), layout(9, 8)),
        Err(Error::ShrinkError(8, 9))
    );
    assert_eq!(block.addr(), addr);
    assert_eq!(block.size(), 8);
}

#[test]
fn the_errors_as_text() {
    assert_eq!(Error::AllocError.to_string(), "memory allocation failed");
    assert_eq!(Error::GrowError(16, 8).to_string(), "old size 16 is larger than new size 8");
    assert_eq!(Error::ShrinkError(0, 1024).to_string(), "old size 0 is smaller than new size 1024");
    assert_eq!(
        Error::GrowError(usize::MAX, 10).to_string(),
        format!("old size {} is larger than new size {}", usize::MAX, 10)
    );
}

#[test]
fn errors_are_compared_by_what_they_hold() {
    assert_eq!(Error::GrowError(1, 2), Error::GrowError(1, 2));
    assert_ne!(Error::GrowError(1, 2), Error::ShrinkError(1, 2));
    assert_ne!(Error::GrowError(1, 2), Error::GrowError(2, 1));
    assert_ne!(Error::AllocError, Error::GrowError(0, 0));
}

#[test]
fn layouts_are_made_of_powers_of_two() {
    assert!(Layout::from_size_align(0, 1).is_some());
    assert!(Layout::from_size_align(32, 8).is_some());
    assert!(Layout::from_size_align(32, 0).is_none());
    assert!(Layout::from_size_align(32, 3).is_none());
    assert!(Layout::from_size_align(32, 24).is_none());
    let l = Layout::from_size_align(24, 16).expect("a layout");
    assert_eq!((l.size(), l.align()), (24, 16));
}

#[test]
fn layouts_fit_a_signed_word_when_rounded_up() {
    let most = isize::MAX as usize;
    assert!(Layout::from_size_align(most, 1).is_some());
    assert!(Layout::from_size_align(most + 1, 1).is_none());
    assert!(Layout::from_size_align(most - 7, 8).is_some());
    assert!(Layout::from_size_align(most - 6, 8).is_none());
    assert!(Layout::from_size_align(0, most + 1).is_some());
    assert!(Layout::from_size_align(1, most + 1).is_none());
    assert!(Layout::from_size_align(usize::MAX, 1).is_none());
}

#[test]
fn the_layout_of_a_type() {
    let l = Layout::new::<u64>();
    assert_eq!((l.size(), l.align()), (8, 8));
    let l = Layout::new::<[u16; 5]>();
    assert_eq!((l.size(), l.align()), (10, 2));
    let l = Layout::new::<()>();
    assert_eq!((l.size(), l.align()), (0, 1));
}

#[test]
fn a_block_made_of_bytes() {
    let block = Block::from_bytes(4096, vec![1, 2, 3]);
    assert_eq!(block.addr(), 4096);
    assert_eq!(block.size(), 3);
    assert_eq!(block.as_slice(), &[1, 2, 3][..]);
}

#[test]
fn the_allocator_itself() {
    let a = StdAllocator;
    let b = a.by_ref();
    assert!(b.allocate(layout(1, 1)).is_ok());
}

#[test]
fn a_block_is_carved_at_the_first_multiple_of_its_alignment() {
    let store: Vec<u8> = (0..11).collect();
    let block = Block::carve_at(store.clone(), 1001, 4, 8).expect("a block");
    assert_eq!(block.addr(), 1008);
    assert_eq!(block.size(), 4);
    assert_eq!(block.as_slice(), &[7, 8, 9, 10][..]);
    let block = Block::carve_at(store.clone(), 1000, 4, 8).expect("a block");
    assert_eq!(block.addr(), 1000);
    assert_eq!(block.as_slice(), &[0, 1, 2, 3][..]);
    let block = Block::carve_at(store.clone(), 1007, 4, 8).expect("a block");
    assert_eq!(block.addr(), 1008);
    assert_eq!(block.as_slice(), &[1, 2, 3, 4][..]);
    let block = Block::carve_at(store, 5, 11, 1).expect("a block");
    assert_eq!(block.addr(), 5);
    assert_eq!(block.size(), 11);
}

#[test]
fn no_block_is_carved_beyond_the_last_address() {
    let store: Vec<u8> = (0..11).collect();
    assert!(Block::carve_at(store.clone(), usize::MAX - 5, 4, 8).is_none());
    assert!(Block::carve_at(store.clone(), usize::MAX - 10, 4, 8).is_none());
    let block = Block::carve_at(store, usize::MAX - 11, 4, 8).expect("a block");
    assert_eq!(block.addr(), usize::MAX - 7);
}

#[test]
fn the_heap_has_no_room_for_half_the_address_space() {
    let most = isize::MAX as usize;
    assert!(matches!(StdAllocator.allocate(layout(most - 4095, 4096)), Err(Error::AllocError)));
    assert!(matches!(StdAllocator.allocate_zeroed(layout(most, 1)), Err(Error::AllocError)));
    let mut block = StdAllocator.allocate(layout(8, 8)).expect("a block");
    block.set(0, 5);
    let addr = block.addr();
    assert_eq!(
        StdAllocator.grow(&mut block, layout(8, 8), layout(most - 7, 8)),
        Err(Error::AllocError)
    );
    assert_eq!(block.addr(), addr);
    assert_eq!(block.get(0), 5);
}
