use bookcase::notebook::multi::chapter_idx;
use bookcase::{
    GrowthStrategy, Notebook, Pen, PersonalMonoNotebook, PersonalMultiNotebook,
    PublicMonoNotebook, PublicMultiNotebook, SizeStrategy, StdAllocator, TypedNotebook,
};
use std::mem::{align_of, size_of};

type Multi = PersonalMultiNotebook<StdAllocator, Pen>;

#[derive(Clone, Copy, Debug, PartialEq)]
struct Pair {
    a: usize,
    b: isize,
}

fn pair_image(pair: &Pair) -> Vec<u8> {
    let mut image = pair.a.to_ne_bytes().to_vec();
    image.extend_from_slice(&pair.b.to_ne_bytes());
    image
}

fn pair_from(image: &[u8]) -> Pair {
    let mut a = [0u8; 8];
    let mut b = [0u8; 8];
    a.copy_from_slice(&image[0..8]);
    b.copy_from_slice(&image[8..16]);
    Pair { a: usize::from_ne_bytes(a), b: isize::from_ne_bytes(b) }
}

fn words(n: usize) -> Multi {
    Multi::new(StdAllocator, SizeStrategy::WordsPerPage(n), GrowthStrategy::Constant)
}

#[test]
fn bump_layout_in_a_personal_multi_notebook() {
    let mut book = words(4);

    let first = book.allocate::<i32>().expect("a slot");
    assert!(book.write::<i32>(first, &0x0302i32.to_ne_bytes()));
    assert_eq!(book.page_count(2), 1);
    assert_eq!(book.clone_chapters()[2][0][0..4], [0x02, 0x03, 0x00, 0x00]);
    assert_eq!(book.clone_chapters()[2][0].len(), 32);

    for _ in 0..7 {
        book.alloc_init::<i32>(&0i32.to_ne_bytes()).expect("a slot");
    }
    assert_eq!(book.page_count(2), 1);

    for value in [4usize, 5, 6, 7] {
        TypedNotebook::<usize>::alloc_init_t(&mut book, &value.to_ne_bytes()).expect("a slot");
    }
    assert_eq!(book.page_count(3), 1);

    let mut ints = vec![0u8; 32];
    ints[0] = 0x02;
    ints[1] = 0x03;
    let words: Vec<u8> = vec![
        4, 0, 0, 0, 0, 0, 0, 0, 5, 0, 0, 0, 0, 0, 0, 0, 6, 0, 0, 0, 0, 0, 0, 0, 7, 0, 0, 0, 0,
        0, 0, 0,
    ];
    let none: Vec<Vec<u8>> = vec![];
    let snapshot = book.clone_chapters();
    assert_eq!(snapshot[0], none);
    assert_eq!(snapshot[1], none);
    assert_eq!(snapshot[2], vec![ints]);
    assert_eq!(snapshot[3], vec![words]);
    assert_eq!(snapshot[4], none);

    let back = book.read::<i32>(first).expect("the slot");
    assert_eq!(i32::from_ne_bytes([back[0], back[1], back[2], back[3]]), 770);
}

#[test]
fn a_full_page_is_followed_by_a_new_one() {
    let mut book = words(4);
    for _ in 0..8 {
        book.alloc_init::<i32>(&1i32.to_ne_bytes()).expect("a slot");
    }
    assert_eq!(book.page_count(2), 1);
    book.alloc_init::<i32>(&1i32.to_ne_bytes()).expect("a slot");
    assert_eq!(book.page_count(2), 2);
}

#[test]
fn mono_notebook_over_a_two_word_struct() {
    assert_eq!(size_of::<Pair>(), 16);
    assert_eq!(align_of::<Pair>(), 8);
    let mut book = PersonalMonoNotebook::<StdAllocator, Pen, Pair>::new(
        StdAllocator,
        SizeStrategy::ItemsPerPage(4),
        GrowthStrategy::Constant,
    );
    let value = Pair { a: 0x01020304, b: -0x04030201 };
    let slot = book.alloc_init_t(&pair_image(&value)).expect("a slot");
    assert_eq!(slot % 8, 0);
    assert_eq!(book.page_count(), 1);
    assert_eq!(book.clone_pages()[0].len(), 64);
    let back = pair_from(&book.read_t(slot).expect("the slot"));
    assert_eq!(back, Pair { a: 16909060, b: -67305985 });
}

#[test]
fn exponential_growth_doubles_the_pages() {
    let mut book =
        Multi::new(StdAllocator, SizeStrategy::WordsPerPage(1), GrowthStrategy::Exponential);
    book.alloc_init::<u64>(&1u64.to_ne_bytes()).expect("a slot");
    assert_eq!(book.page_count(3), 1);
    book.alloc_init::<u64>(&2u64.to_ne_bytes()).expect("a slot");
    assert_eq!(book.page_count(3), 2);
    assert_eq!(book.clone_chapters()[3][1].len(), 16);
    for value in 3u64..=8 {
        book.alloc_init::<u64>(&value.to_ne_bytes()).expect("a slot");
    }
    let sizes: Vec<usize> = book.clone_chapters()[3].iter().map(|page| page.len()).collect();
    assert_eq!(sizes, vec![8, 16, 32, 64]);
}

#[test]
fn linear_growth_adds_the_step() {
    let mut book =
        Multi::new(StdAllocator, SizeStrategy::WordsPerPage(1), GrowthStrategy::Linear(2));
    for value in 0u64..12 {
        book.alloc_init::<u64>(&value.to_ne_bytes()).expect("a slot");
    }
    let sizes: Vec<usize> = book.clone_chapters()[3].iter().map(|page| page.len()).collect();
    assert_eq!(sizes, vec![16, 32, 48]);
}

#[test]
fn alignments_do_not_share_chapters() {
    let mut book = words(4);
    book.alloc_init::<u8>(&[7]).expect("a slot");
    book.alloc_init::<u64>(&9u64.to_ne_bytes()).expect("a slot");
    assert_eq!(book.page_count(0), 1);
    assert_eq!(book.page_count(1), 0);
    assert_eq!(book.page_count(2), 0);
    assert_eq!(book.page_count(3), 1);
    assert_eq!(book.page_count(4), 0);
    book.alloc_init::<u8>(&[8]).expect("a slot");
    assert_eq!(book.page_count(0), 1);
    assert_eq!(book.page_count(3), 1);
}

#[test]
fn chapter_index_counts_trailing_zeros_up_to_four() {
    assert_eq!(chapter_idx(1), 0);
    assert_eq!(chapter_idx(2), 1);
    assert_eq!(chapter_idx(4), 2);
    assert_eq!(chapter_idx(8), 3);
    assert_eq!(chapter_idx(16), 4);
    assert_eq!(chapter_idx(32), 4);
    assert_eq!(chapter_idx(4096), 4);
    assert_eq!(chapter_idx(3), 0);
    assert_eq!(chapter_idx(6), 1);
    assert_eq!(chapter_idx(0), 4);
    for align in [1usize, 2, 4, 8, 16, 64, 1 << 20] {
        assert_eq!(chapter_idx(align), (align.trailing_zeros() as usize).min(4));
    }
}

#[test]
fn slots_are_aligned_and_lie_in_one_page() {
    let mut book = words(8);
    let mut slots = vec![];
    for _ in 0..5 {
        slots.push((book.allocate::<u8>().expect("a slot"), 1usize, 1usize));
        slots.push((book.allocate::<u16>().expect("a slot"), 2, 2));
        slots.push((book.allocate::<u32>().expect("a slot"), 4, 4));
        slots.push((book.allocate::<u64>().expect("a slot"), 8, 8));
        slots.push((book.allocate::<u128>().expect("a slot"), 16, align_of::<u128>()));
    }
    for (slot, size, align) in slots {
        assert_eq!(slot % align, 0);
        let ch = chapter_idx(align);
        let pages = book.clone_chapters();
        assert!(pages[ch].iter().any(|page| size <= page.len()));
        match size {
            1 => assert!(book.read::<u8>(slot).is_some()),
            2 => assert!(book.read::<u16>(slot).is_some()),
            4 => assert!(book.read::<u32>(slot).is_some()),
            8 => assert!(book.read::<u64>(slot).is_some()),
            _ => assert!(book.read::<u128>(slot).is_some()),
        }
    }
}

#[test]
fn slots_of_one_page_follow_each_other() {
    let mut book = words(4);
    let first = book.allocate::<u32>().expect("a slot");
    let mut last = first;
    for _ in 0..7 {
        let next = book.allocate::<u32>().expect("a slot");
        assert_eq!(next, last + 4);
        last = next;
    }
    assert_eq!(book.page_count(2), 1);
}

#[test]
fn pages_are_as_few_as_hold_the_values() {
    let mut book = PersonalMonoNotebook::<StdAllocator, Pen, u64>::new(
        StdAllocator,
        SizeStrategy::ItemsPerPage(4),
        GrowthStrategy::Constant,
    );
    assert_eq!(book.page_count(), 0);
    for k in 1usize..=21 {
        book.alloc_t().expect("a slot");
        assert_eq!(book.page_count(), (k + 3) / 4);
    }
}

#[test]
fn pages_that_hold_no_whole_number_of_values_leave_room_unused() {
    let mut book = PersonalMonoNotebook::<StdAllocator, Pen, [u8; 3]>::new(
        StdAllocator,
        SizeStrategy::WordsPerPage(1),
        GrowthStrategy::Constant,
    );
    let mut slots = vec![];
    for _ in 0..5 {
        slots.push(book.alloc_t().expect("a slot"));
    }
    assert_eq!(book.page_count(), 3);
    assert_eq!(slots[1], slots[0] + 3);
    assert_eq!(slots[3], slots[2] + 3);
}

#[test]
fn the_newest_page_with_room_is_taken_first() {
    let mut book = words(1);
    book.alloc_init::<[u8; 5]>(&[1; 5]).expect("a slot");
    book.alloc_init::<[u8; 5]>(&[2; 5]).expect("a slot");
    book.alloc_init::<[u8; 3]>(&[3; 3]).expect("a slot");
    book.alloc_init::<[u8; 3]>(&[4; 3]).expect("a slot");
    assert_eq!(
        book.clone_chapters()[0],
        vec![vec![1, 1, 1, 1, 1, 4, 4, 4], vec![2, 2, 2, 2, 2, 3, 3, 3]]
    );
}

#[test]
fn what_is_written_is_read_back() {
    let mut book = words(4);
    let a = book.alloc_init::<u32>(&0xdeadbeefu32.to_ne_bytes()).expect("a slot");
    let b = book.alloc_init::<u32>(&0x01020304u32.to_ne_bytes()).expect("a slot");
    assert_eq!(book.read::<u32>(a), Some(0xdeadbeefu32.to_ne_bytes().to_vec()));
    assert_eq!(book.read::<u32>(b), Some(0x01020304u32.to_ne_bytes().to_vec()));
    assert!(book.write::<u32>(a, &5u32.to_ne_bytes()));
    assert_eq!(book.read::<u32>(a), Some(5u32.to_ne_bytes().to_vec()));
    assert_eq!(book.read::<u32>(b), Some(0x01020304u32.to_ne_bytes().to_vec()));
}

#[test]
fn nothing_is_read_or_written_outside_the_pages() {
    let mut book = words(4);
    assert_eq!(book.read::<u32>(64), None);
    assert!(!book.write::<u32>(64, &[0, 0, 0, 0]));
    let slot = book.allocate::<u32>().expect("a slot");
    assert_eq!(book.read::<u32>(slot + 32), None);
    assert!(book.read::<u32>(slot + 28).is_some());
    assert_eq!(book.read::<u32>(slot + 29), None);
    assert_eq!(book.read::<u64>(slot), None);
    assert!(!book.zero::<u32>(slot + 32));
}

#[test]
fn a_page_too_small_for_the_value_is_not_made() {
    let mut book = PersonalMonoNotebook::<StdAllocator, Pen, [u64; 3]>::new(
        StdAllocator,
        SizeStrategy::WordsPerPage(1),
        GrowthStrategy::Constant,
    );
    assert_eq!(book.alloc_t(), None);
    assert_eq!(book.page_count(), 0);
    assert_eq!(book.alloc_zero_t(), None);
    assert!(book.new_t([1, 2, 3]).is_none());
}

#[test]
fn a_page_size_beyond_the_machine_is_not_made() {
    let mut book =
        Multi::new(StdAllocator, SizeStrategy::ItemsPerPage(usize::MAX), GrowthStrategy::Constant);
    assert_eq!(book.allocate::<u64>(), None);
    assert_eq!(book.page_count(3), 0);
    let mut book =
        Multi::new(StdAllocator, SizeStrategy::WordsPerPage(1), GrowthStrategy::Linear(usize::MAX));
    assert_eq!(book.allocate::<u64>(), None);
    let mut book = Multi::new(
        StdAllocator,
        SizeStrategy::WordsPerPage(usize::MAX / 16),
        GrowthStrategy::Constant,
    );
    assert_eq!(book.allocate::<u8>(), None);
}

#[test]
fn values_without_bytes_take_no_room() {
    let mut book = words(1);
    let a = book.allocate::<()>().expect("a slot");
    let b = book.allocate::<()>().expect("a slot");
    assert_eq!(a, b);
    assert_eq!(book.page_count(0), 1);
}

#[test]
fn deallocation_succeeds_where_the_chapter_has_pages() {
    let mut book = words(4);
    assert!(!book.dealloc::<u32>(0));
    let slot = book.allocate::<u32>().expect("a slot");
    assert!(book.dealloc::<u32>(slot));
    assert!(!book.dealloc::<u64>(slot));
    assert_eq!(book.allocate::<u32>(), Some(slot + 4));
}

#[test]
fn the_text_of_a_multi_notebook() {
    let mut book = words(1);
    assert_eq!(book.to_string(), "ch0:\nch1:\nch2:\nch3:\nch4:");
    book.alloc_init::<u32>(&0x0302u32.to_ne_bytes()).expect("a slot");
    book.alloc_init::<u32>(&0xffu32.to_ne_bytes()).expect("a slot");
    book.alloc_init::<u32>(&0x10u32.to_ne_bytes()).expect("a slot");
    assert_eq!(
        book.to_string(),
        "ch0:\nch1:\nch2:\n  buffer: 02 03 00 00 ff 00 00 00\n  buffer: 10 00 00 00 00 00 00 00\nch3:\nch4:"
    );
}

#[test]
fn the_text_of_a_mono_notebook() {
    let mut book = PersonalMonoNotebook::<StdAllocator, Pen, u16>::new(
        StdAllocator,
        SizeStrategy::ItemsPerPage(2),
        GrowthStrategy::Constant,
    );
    assert_eq!(book.to_string(), "");
    book.alloc_init_t(&0xabcdu16.to_ne_bytes()).expect("a slot");
    assert_eq!(book.to_string(), "\n  buffer: cd ab 00 00");
}

#[test]
fn public_notebooks_do_what_personal_ones_do() {
    let mut book = PublicMultiNotebook::<StdAllocator, Pen>::new(
        StdAllocator,
        SizeStrategy::WordsPerPage(4),
        GrowthStrategy::Constant,
    );
    let a = book.alloc_init::<u64>(&3u64.to_ne_bytes()).expect("a slot");
    let b = book.alloc_zero::<u64>().expect("a slot");
    assert_eq!(b, a + 8);
    assert_eq!(book.read::<u64>(a), Some(3u64.to_ne_bytes().to_vec()));
    assert_eq!(book.read::<u64>(b), Some(vec![0; 8]));
    assert!(book.dealloc::<u64>(a));
    assert_eq!(book.page_count(3), 1);
    assert_eq!(book.clone_chapters()[3].len(), 1);
    assert!(book.to_string().starts_with("ch0:\nch1:\nch2:\nch3:\n  buffer: 03 00"));
    book.destroy();
    assert_eq!(book.page_count(3), 0);

    let mut mono = PublicMonoNotebook::<StdAllocator, Pen, u32>::new(
        StdAllocator,
        SizeStrategy::AlignmentsPerPage(2),
        GrowthStrategy::Constant,
    );
    let a = mono.alloc_init_t(&1u32.to_ne_bytes()).expect("a slot");
    let b = mono.alloc_init_t(&2u32.to_ne_bytes()).expect("a slot");
    let c = mono.alloc_init_t(&3u32.to_ne_bytes()).expect("a slot");
    assert_eq!(b, a + 4);
    assert_eq!(mono.page_count(), 2);
    assert_eq!(mono.read_t(c), Some(3u32.to_ne_bytes().to_vec()));
    assert!(mono.dealloc_t(a));
    assert_eq!(mono.to_string(), "\n  buffer: 01 00 00 00 02 00 00 00\n  buffer: 03 00 00 00 00 00 00 00");
    mono.destroy();
    assert_eq!(mono.page_count(), 0);
    assert!(!mono.dealloc_t(a));
}
