use bookcase::{Layout, Page, Pen, StdAllocator};
use std::mem::size_of;

fn new_page<T>() -> Page<Pen> {
    Page::<Pen>::create(Layout::new::<T>(), &StdAllocator).expect("a page")
}

#[test]
fn can_allocate_full_size() {
    assert!(new_page::<usize>().can_alloc(size_of::<usize>()));
}

#[test]
fn cannot_allocate_greater_than_full_size() {
    assert!(!new_page::<usize>().can_alloc(size_of::<usize>() + 1));
}

#[test]
fn can_allocate_multiple() {
    let mut page = new_page::<[usize; 4]>();

    assert!(page.can_alloc(size_of::<usize>()));
    page.allocate(size_of::<usize>());
    assert!(page.can_alloc(size_of::<usize>()));
    page.allocate(size_of::<usize>());
    assert!(page.can_alloc(size_of::<usize>()));
    page.allocate(size_of::<usize>());
    assert!(page.can_alloc(size_of::<usize>()));
    page.allocate(size_of::<usize>());
    assert!(!page.can_alloc(size_of::<usize>()));
}

#[test]
fn can_allocate_partial() {
    let mut page = new_page::<u128>();

    assert!(page.can_alloc(size_of::<u64>()));
    page.allocate(size_of::<u64>());
    assert!(page.can_alloc(size_of::<u32>()));
    page.allocate(size_of::<u32>());
    assert!(page.can_alloc(size_of::<u16>()));
    page.allocate(size_of::<u16>());
    assert!(page.can_alloc(size_of::<u8>()));
    page.allocate(size_of::<u8>());
    assert!(page.can_alloc(size_of::<u8>()));
    page.allocate(size_of::<u8>());
    assert!(!page.can_alloc(size_of::<u8>()));
}

#[test]
fn pen_can_always_deallocate() {
    let mut page = new_page::<u128>();

    assert!(page.can_alloc(size_of::<u64>()));
    page.allocate(size_of::<u64>());
    assert!(page.can_alloc(size_of::<u32>()));
    page.allocate(size_of::<u32>());
    assert!(page.can_alloc(size_of::<u16>()));
    page.allocate(size_of::<u16>());
    assert!(page.can_alloc(size_of::<u8>()));
    page.allocate(size_of::<u8>());
    assert!(page.can_alloc(size_of::<u8>()));
    page.allocate(size_of::<u8>());
    assert!(!page.can_alloc(size_of::<u8>()));
}

#[test]
fn it_works() {
}
